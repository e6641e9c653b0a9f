//! The claim record store and the attestation resolver: observers' claims are counted by
//! weight per nonce, and the first claim-set to pass the quorum is attested for good.
use vstd::prelude::*;

use crate::event::{Claim, DepositEvent, EventModel};

verus! {

/// The sum of the first `n` weights.
pub open spec fn weight_sum(w: Seq<u64>, n: int) -> nat
    decreases n,
{
    if n <= 0 {
        0
    } else {
        weight_sum(w, n - 1) + w[n - 1] as nat
    }
}

/// The total weight of all observers.
pub open spec fn total_weight(w: Seq<u64>) -> nat {
    weight_sum(w, w.len() as int)
}

/// A prefix of the weights never weighs more than a longer one.
pub proof fn lemma_weight_sum_monotone(w: Seq<u64>, i: int, j: int)
    requires
        0 <= i <= j <= w.len(),
    ensures
        weight_sum(w, i) <= weight_sum(w, j),
    decreases j - i,
{
    if i < j {
        lemma_weight_sum_monotone(w, i, j - 1);
    }
}

/// The observers, identified by their index, with their voting weights.
pub struct ObserverSet {
    weights: Vec<u64>,
    total: u64,
}

impl View for ObserverSet {
    type V = Seq<u64>;

    closed spec fn view(&self) -> Seq<u64> {
        self.weights@
    }
}

impl ObserverSet {
    pub closed spec fn wf(&self) -> bool {
        self.total as nat == total_weight(self.weights@)
    }

    /// The observer set with these weights; `None` when the total weight does not fit in
    /// 64 bits.
    pub fn new(weights: Vec<u64>) -> (r: Option<ObserverSet>)
        ensures
            r is Some <==> total_weight(weights@) <= u64::MAX,
            r matches Some(o) ==> o.wf() && o@ == weights@,
    {
        let mut total: u64 = 0;
        let mut i: usize = 0;
        while i < weights.len()
            invariant
                i <= weights@.len(),
                total as nat == weight_sum(weights@, i as int),
            decreases weights@.len() - i,
        {
            if total > u64::MAX - weights[i] {
                proof {
                    lemma_weight_sum_monotone(weights@, i as int + 1, weights@.len() as int);
                }
                return None;
            }
            total = total + weights[i];
            i = i + 1;
        }
        Some(ObserverSet { weights, total })
    }

    /// The number of observers.
    pub fn len(&self) -> (r: usize)
        ensures
            r == self@.len(),
    {
        self.weights.len()
    }

    /// The total weight of all observers.
    pub fn total(&self) -> (r: u64)
        requires
            self.wf(),
        ensures
            r == total_weight(self@),
    {
        self.total
    }
}

/// Whether `weight` strictly exceeds two thirds of `total`.
pub open spec fn quorum(weight: nat, total: nat) -> bool {
    3 * weight > 2 * total
}

/// The weight of the first `n` observers whose vote is `e`.
pub open spec fn weight_for(votes: Seq<Option<EventModel>>, w: Seq<u64>, e: EventModel, n: int) -> nat
    decreases n,
{
    if n <= 0 {
        0
    } else {
        weight_for(votes, w, e, n - 1) + if votes[n - 1] == Some(e) {
            w[n - 1] as nat
        } else {
            0
        }
    }
}

/// The accumulated weight of the claim-set `e`: the weights of the distinct observers
/// whose current claim is `e`.
pub open spec fn claim_set_weight(votes: Seq<Option<EventModel>>, w: Seq<u64>, e: EventModel) -> nat {
    weight_for(votes, w, e, w.len() as int)
}

/// The claims for one nonce: the current claim of each observer, by index, and the
/// attested event once there is one.
pub struct NonceModel {
    pub votes: Seq<Option<EventModel>>,
    pub attested: Option<EventModel>,
}

/// The record of a nonce, or a fresh one with no claims.
pub open spec fn record_or_fresh(records: Map<u64, NonceModel>, n: u64, count: nat) -> NonceModel {
    if records.contains_key(n) {
        records[n]
    } else {
        NonceModel { votes: Seq::new(count, |i: int| None), attested: None }
    }
}

/// The record after observer `s` claims `e`: the claim replaces the observer's earlier
/// one, and `e` is attested when the nonce had no attestation and `e` now has a quorum.
pub open spec fn next_record(rec: NonceModel, w: Seq<u64>, s: int, e: EventModel) -> NonceModel {
    let votes = rec.votes.update(s, Some(e));
    NonceModel {
        votes,
        attested: if rec.attested is None && quorum(
            claim_set_weight(votes, w, e),
            total_weight(w),
        ) {
            Some(e)
        } else {
            rec.attested
        },
    }
}

/// The attested event of nonce `n`, if any.
pub open spec fn attestation_of(records: Map<u64, NonceModel>, n: u64) -> Option<EventModel> {
    if records.contains_key(n) {
        records[n].attested
    } else {
        None
    }
}

/// The records after observer `s` claims `e` for nonce `n`.
pub open spec fn after_claim(records: Map<u64, NonceModel>, w: Seq<u64>, n: u64, s: int, e: EventModel) -> Map<
    u64,
    NonceModel,
> {
    records.insert(n, next_record(record_or_fresh(records, n, w.len()), w, s, e))
}

/// What a valid claim of `e` for nonce `n` by observer `s` is reported as.
pub open spec fn claim_result(records: Map<u64, NonceModel>, w: Seq<u64>, n: u64, s: int, e: EventModel) -> SubmitResult {
    let rec = record_or_fresh(records, n, w.len());
    if rec.attested is Some && rec.attested != Some(e) {
        SubmitResult::Rejected(RejectReason::AlreadyFinalizedConflict)
    } else if rec.votes[s] is Some {
        SubmitResult::Superseded
    } else {
        SubmitResult::Accepted
    }
}

/// Whether a valid claim of `e` for nonce `n` by observer `s` attests its nonce.
pub open spec fn claim_attests(records: Map<u64, NonceModel>, w: Seq<u64>, n: u64, s: int, e: EventModel) -> bool {
    let rec = record_or_fresh(records, n, w.len());
    rec.attested is None && next_record(rec, w, s, e).attested is Some
}

/// Once a nonce is attested, no claim changes its attestation, whatever weight other
/// claim-sets gather afterwards; and no claim touches another nonce's attestation.
pub proof fn lemma_quorum_irreversible(
    records: Map<u64, NonceModel>,
    w: Seq<u64>,
    n: u64,
    s: int,
    e: EventModel,
    m: u64,
)
    requires
        attestation_of(records, m) is Some,
    ensures
        attestation_of(after_claim(records, w, n, s, e), m) == attestation_of(records, m),
{
}

/// A claim for a nonce that is already attested, be it the attested event itself, never
/// attests anything again: nothing more reaches the sequencer or settlement.
pub proof fn lemma_attested_nonce_settles_nothing(
    records: Map<u64, NonceModel>,
    w: Seq<u64>,
    n: u64,
    s: int,
    e: EventModel,
)
    requires
        attestation_of(records, n) is Some,
    ensures
        !claim_attests(records, w, n, s, e),
{
}

/// The accumulated weight of any claim-set never exceeds the observers' total weight.
pub proof fn lemma_claim_set_weight_bounded(votes: Seq<Option<EventModel>>, w: Seq<u64>, e: EventModel)
    ensures
        claim_set_weight(votes, w, e) <= total_weight(w),
{
    lemma_weight_for_bounded(votes, w, e, w.len() as int);
}

/// The weight of a claim-set among the first `n` observers is at most theirs in all.
proof fn lemma_weight_for_bounded(votes: Seq<Option<EventModel>>, w: Seq<u64>, e: EventModel, n: int)
    ensures
        weight_for(votes, w, e, n) <= weight_sum(w, n),
    decreases n,
{
    if n > 0 {
        lemma_weight_for_bounded(votes, w, e, n - 1);
    }
}

/// When every observer's current claim is `e`, the claim-set `e` carries the whole weight.
pub proof fn lemma_unanimous_weight(votes: Seq<Option<EventModel>>, w: Seq<u64>, e: EventModel, n: int)
    requires
        0 <= n <= w.len(),
        n <= votes.len(),
        forall|i: int| 0 <= i < n ==> votes[i] == Some(e),
    ensures
        weight_for(votes, w, e, n) == weight_sum(w, n),
    decreases n,
{
    if n > 0 {
        lemma_unanimous_weight(votes, w, e, n - 1);
    }
}

/// Why a claim was not counted.
#[derive(Clone, Copy, Debug, PartialEq, Eq, Structural)]
pub enum RejectReason {
    /// The nonce is attested with an event that differs from the claim.
    AlreadyFinalizedConflict,
    /// The submitter is not one of the observers.
    UnknownObserver,
    /// The claim's nonce is zero; nonces start at one.
    InvalidNonce,
}

/// What became of a submitted claim.
#[derive(Clone, Copy, Debug, PartialEq, Eq, Structural)]
pub enum SubmitResult {
    /// Stored as the observer's first claim for the nonce.
    Accepted,
    /// Stored in place of the observer's earlier claim for the nonce.
    Superseded,
    /// Not counted.
    Rejected(RejectReason),
}

/// The result of one submission, with the event it attested, if it attested one.
pub struct Submission {
    pub result: SubmitResult,
    pub finalized: Option<DepositEvent>,
}

/// The view of a stored claim.
pub open spec fn vote_view(v: Option<DepositEvent>) -> Option<EventModel> {
    match v {
        Some(e) => Some(e@),
        None => None,
    }
}

/// The claim records of every nonce that has any, and the observers that make them.
pub struct ClaimStore {
    observers: ObserverSet,
    nonces: Vec<u64>,
    votes: Vec<Vec<Option<DepositEvent>>>,
    attested: Vec<Option<DepositEvent>>,
    record_map: Ghost<Map<u64, NonceModel>>,
}

impl ClaimStore {
    /// The stored record at position `i`.
    closed spec fn record_at(&self, i: int) -> NonceModel {
        NonceModel {
            votes: self.votes@[i]@.map_values(|v: Option<DepositEvent>| vote_view(v)),
            attested: vote_view(self.attested@[i]),
        }
    }

    /// The claim records, by nonce.
    pub closed spec fn records(&self) -> Map<u64, NonceModel> {
        self.record_map@
    }

    /// The observers' weights.
    pub closed spec fn weights(&self) -> Seq<u64> {
        self.observers@
    }

    pub closed spec fn wf(&self) -> bool {
        &&& self.observers.wf()
        &&& self.votes@.len() == self.nonces@.len()
        &&& self.attested@.len() == self.nonces@.len()
        &&& forall|i: int, j: int|
            0 <= i < j < self.nonces@.len() ==> #[trigger] self.nonces@[i] != #[trigger] self.nonces@[j]
        &&& forall|i: int|
            0 <= i < self.nonces@.len() ==> #[trigger] self.record_map@.contains_key(self.nonces@[i])
                && self.record_map@[self.nonces@[i]] == self.record_at(i)
                && self.votes@[i]@.len() == self.observers@.len()
        &&& forall|n: u64| #[trigger]
            self.record_map@.contains_key(n) ==> exists|i: int|
                0 <= i < self.nonces@.len() && #[trigger] self.nonces@[i] == n
        &&& forall|n: u64| #[trigger] self.record_map@.contains_key(n) ==> n != 0
    }

    /// A store with no claims, counting the votes of `observers`.
    pub fn new(observers: ObserverSet) -> (r: ClaimStore)
        requires
            observers.wf(),
        ensures
            r.wf(),
            r.weights() == observers@,
            r.records() == Map::<u64, NonceModel>::empty(),
    {
        ClaimStore {
            observers,
            nonces: Vec::new(),
            votes: Vec::new(),
            attested: Vec::new(),
            record_map: Ghost(Map::empty()),
        }
    }

    /// Every record holds one slot per observer.
    pub proof fn lemma_records_shape(&self)
        requires
            self.wf(),
        ensures
            forall|n: u64| #[trigger]
                self.records().contains_key(n) ==> self.records()[n].votes.len() == self.weights().len(),
    {
        assert forall|n: u64| #[trigger]
            self.records().contains_key(n) implies self.records()[n].votes.len() == self.weights().len() by {
            let i = choose|i: int| 0 <= i < self.nonces@.len() && #[trigger] self.nonces@[i] == n;
            assert(self.record_map@.contains_key(self.nonces@[i]));
        }
    }

    /// No record is kept for nonce zero.
    pub proof fn lemma_records_nonzero(&self)
        requires
            self.wf(),
        ensures
            !self.records().contains_key(0),
    {
    }

    /// The attested event of nonce `n`, if it has one.
    pub fn get_attestation(&self, n: u64) -> (r: Option<DepositEvent>)
        requires
            self.wf(),
        ensures
            vote_view(r) == attestation_of(self.records(), n),
    {
        match self.find_nonce(n) {
            Some(i) => {
                proof {
                    assert(self.record_map@.contains_key(self.nonces@[i as int]));
                }
                match &self.attested[i] {
                    Some(a) => Some(a.duplicate()),
                    None => None,
                }
            },
            None => None,
        }
    }

    /// The number of observers.
    pub fn observer_count(&self) -> (r: usize)
        ensures
            r == self.weights().len(),
    {
        self.observers.len()
    }

    /// The total weight of the observers.
    pub fn total_weight(&self) -> (r: u64)
        requires
            self.wf(),
        ensures
            r == total_weight(self.weights()),
    {
        self.observers.total()
    }

    /// The position of nonce `n`'s record.
    fn find_nonce(&self, n: u64) -> (r: Option<usize>)
        requires
            self.wf(),
        ensures
            r is None <==> !self.records().contains_key(n),
            r matches Some(i) ==> i < self.nonces@.len() && self.nonces@[i as int] == n,
    {
        let mut i: usize = 0;
        while i < self.nonces.len()
            invariant
                self.wf(),
                i <= self.nonces@.len(),
                forall|j: int| 0 <= j < i ==> self.nonces@[j] != n,
            decreases self.nonces@.len() - i,
        {
            if self.nonces[i] == n {
                proof {
                    assert(self.record_map@.contains_key(self.nonces@[i as int]));
                }
                return Some(i);
            }
            i = i + 1;
        }
        None
    }

    /// The accumulated weight of the claim-set `e` among `votes`.
    fn weight_of(&self, votes: &Vec<Option<DepositEvent>>, e: &DepositEvent) -> (r: u64)
        requires
            self.wf(),
            votes@.len() == self.weights().len(),
        ensures
            r as nat == claim_set_weight(
                votes@.map_values(|v: Option<DepositEvent>| vote_view(v)),
                self.weights(),
                e@,
            ),
    {
        let ghost vv = votes@.map_values(|v: Option<DepositEvent>| vote_view(v));
        let ghost w = self.observers@;
        let mut acc: u64 = 0;
        let mut i: usize = 0;
        while i < votes.len()
            invariant
                self.wf(),
                w == self.observers@,
                vv == votes@.map_values(|v: Option<DepositEvent>| vote_view(v)),
                votes@.len() == w.len(),
                i <= votes@.len(),
                acc as nat == weight_for(vv, w, e@, i as int),
                weight_for(vv, w, e@, i as int) <= weight_sum(w, i as int),
            decreases votes@.len() - i,
        {
            proof {
                lemma_weight_sum_monotone(w, i as int + 1, w.len() as int);
            }
            let matches_e = match &votes[i] {
                Some(v) => v.same_event(e),
                None => false,
            };
            assert(vv[i as int] == vote_view(votes@[i as int]));
            if matches_e {
                acc = acc + self.observers.weights[i];
            }
            i = i + 1;
        }
        acc
    }

    /// `votes` with observer `s`'s claim replaced by `e`.
    fn with_vote(votes: &Vec<Option<DepositEvent>>, s: usize, e: &DepositEvent) -> (r: Vec<Option<DepositEvent>>)
        requires
            s < votes@.len(),
        ensures
            r@.len() == votes@.len(),
            r@.map_values(|v: Option<DepositEvent>| vote_view(v)) == votes@.map_values(
                |v: Option<DepositEvent>| vote_view(v),
            ).update(s as int, Some(e@)),
    {
        let mut r: Vec<Option<DepositEvent>> = Vec::new();
        let mut i: usize = 0;
        while i < votes.len()
            invariant
                s < votes@.len(),
                i <= votes@.len(),
                r@.len() == i,
                forall|j: int|
                    0 <= j < i ==> vote_view(#[trigger] r@[j]) == if j == s {
                        Some(e@)
                    } else {
                        vote_view(votes@[j])
                    },
            decreases votes@.len() - i,
        {
            let v = if i == s {
                Some(e.duplicate())
            } else {
                match &votes[i] {
                    Some(x) => Some(x.duplicate()),
                    None => None,
                }
            };
            r.push(v);
            i = i + 1;
        }
        assert(r@.map_values(|v: Option<DepositEvent>| vote_view(v)) =~= votes@.map_values(
            |v: Option<DepositEvent>| vote_view(v),
        ).update(s as int, Some(e@)));
        r
    }

    /// Counts one observer's claim. A claim for an attested nonce is kept for the record
    /// but changes no attestation; a claim that gives its claim-set a quorum on a nonce
    /// without attestation attests it, and the attested event is handed back.
    pub fn submit(&mut self, claim: &Claim) -> (r: Submission)
        requires
            old(self).wf(),
        ensures
            final(self).wf(),
            final(self).weights() == old(self).weights(),
            claim.event.event_nonce == 0 ==> r.result == SubmitResult::Rejected(
                RejectReason::InvalidNonce,
            ),
            claim.event.event_nonce != 0 && claim.submitter >= old(self).weights().len()
                ==> r.result == SubmitResult::Rejected(RejectReason::UnknownObserver),
            claim.event.event_nonce == 0 || claim.submitter >= old(self).weights().len()
                ==> final(self).records() == old(self).records() && r.finalized is None,
            claim.event.event_nonce != 0 && claim.submitter < old(self).weights().len() ==> {
                &&& final(self).records() == after_claim(
                    old(self).records(),
                    old(self).weights(),
                    claim.event.event_nonce,
                    claim.submitter as int,
                    claim.event@,
                )
                &&& r.result == claim_result(
                    old(self).records(),
                    old(self).weights(),
                    claim.event.event_nonce,
                    claim.submitter as int,
                    claim.event@,
                )
                &&& r.finalized is Some <==> claim_attests(
                    old(self).records(),
                    old(self).weights(),
                    claim.event.event_nonce,
                    claim.submitter as int,
                    claim.event@,
                )
            },
            r.finalized matches Some(f) ==> f@ == claim.event@,
            forall|m: u64|
                #![trigger attestation_of(final(self).records(), m)]
                attestation_of(old(self).records(), m) is Some ==> attestation_of(final(self).records(), m)
                    == attestation_of(old(self).records(), m),
    {
        let n = claim.event.event_nonce;
        if n == 0 {
            return Submission { result: SubmitResult::Rejected(RejectReason::InvalidNonce), finalized: None };
        }
        if claim.submitter >= self.observers.len() as u64 {
            return Submission { result: SubmitResult::Rejected(RejectReason::UnknownObserver), finalized: None };
        }
        let s = claim.submitter as usize;
        let ghost w = self.observers@;
        let ghost old_records = self.record_map@;
        let ghost rec = record_or_fresh(old_records, n, w.len());
        let ghost next = next_record(rec, w, s as int, claim.event@);
        let pos = self.find_nonce(n);
        let ghost nonces0 = self.nonces@;
        match pos {
            Some(i) => {
                proof {
                    assert(self.record_map@.contains_key(self.nonces@[i as int]));
                }
                let prior = self.votes[i][s].is_some();
                let new_votes = Self::with_vote(&self.votes[i], s, &claim.event);
                let (result, finalized) = match &self.attested[i] {
                    Some(a) => {
                        let res = if a.same_event(&claim.event) {
                            if prior { SubmitResult::Superseded } else { SubmitResult::Accepted }
                        } else {
                            SubmitResult::Rejected(RejectReason::AlreadyFinalizedConflict)
                        };
                        (res, None)
                    },
                    None => {
                        let wt = self.weight_of(&new_votes, &claim.event);
                        let res = if prior { SubmitResult::Superseded } else { SubmitResult::Accepted };
                        if 3 * (wt as u128) > 2 * (self.observers.total as u128) {
                            (res, Some(claim.event.duplicate()))
                        } else {
                            (res, None)
                        }
                    },
                };
                match &finalized {
                    Some(f) => {
                        self.attested.set(i, Some(f.duplicate()));
                    },
                    None => {},
                }
                self.votes.set(i, new_votes);
                proof {
                    self.record_map@ = old_records.insert(n, next);
                    assert(self.record_at(i as int) == next);
                    assert forall|k: int| 0 <= k < self.nonces@.len() implies #[trigger]
                        self.record_map@.contains_key(self.nonces@[k]) && self.record_map@[self.nonces@[k]]
                            == self.record_at(k) && self.votes@[k]@.len() == w.len() by {
                        if k != i {
                            assert(old(self).record_map@.contains_key(old(self).nonces@[k]));
                            assert(self.record_at(k) == old(self).record_at(k));
                            if k < i {
                                assert(nonces0[k] != nonces0[i as int]);
                            } else {
                                assert(nonces0[i as int] != nonces0[k]);
                            }
                        }
                    }
                    assert forall|m: u64| #[trigger] self.record_map@.contains_key(m) implies exists|k: int|
                        0 <= k < self.nonces@.len() && #[trigger] self.nonces@[k] == m by {
                        if m == n {
                            assert(self.nonces@[i as int] == m);
                        } else {
                            assert(old_records.contains_key(m));
                        }
                    }
                }
                Submission { result, finalized }
            },
            None => {
                let mut fresh: Vec<Option<DepositEvent>> = Vec::new();
                let mut j: usize = 0;
                while j < self.observers.len()
                    invariant
                        j <= self.observers@.len(),
                        fresh@.len() == j,
                        forall|k: int| 0 <= k < j ==> fresh@[k] is None,
                    decreases self.observers@.len() - j,
                {
                    fresh.push(None);
                    j = j + 1;
                }
                assert(fresh@.map_values(|v: Option<DepositEvent>| vote_view(v)) =~= rec.votes);
                let new_votes = Self::with_vote(&fresh, s, &claim.event);
                let wt = self.weight_of(&new_votes, &claim.event);
                let finalized = if 3 * (wt as u128) > 2 * (self.observers.total as u128) {
                    Some(claim.event.duplicate())
                } else {
                    None
                };
                let stored = match &finalized {
                    Some(f) => Some(f.duplicate()),
                    None => None,
                };
                self.nonces.push(n);
                self.votes.push(new_votes);
                self.attested.push(stored);
                proof {
                    let l = nonces0.len() as int;
                    self.record_map@ = old_records.insert(n, next);
                    assert(self.record_at(l) == next);
                    assert forall|k: int| 0 <= k < self.nonces@.len() implies #[trigger]
                        self.record_map@.contains_key(self.nonces@[k]) && self.record_map@[self.nonces@[k]]
                            == self.record_at(k) && self.votes@[k]@.len() == w.len() by {
                        if k != l {
                            assert(old(self).record_map@.contains_key(old(self).nonces@[k]));
                            assert(self.record_at(k) == old(self).record_at(k));
                            assert(nonces0[k] != n);
                        }
                    }
                    assert forall|a: int, b: int|
                        0 <= a < b < self.nonces@.len() implies #[trigger] self.nonces@[a]
                        != #[trigger] self.nonces@[b] by {
                        if b == l {
                            assert(old(self).record_map@.contains_key(nonces0[a]));
                        }
                    }
                    assert forall|m: u64| #[trigger] self.record_map@.contains_key(m) implies exists|k: int|
                        0 <= k < self.nonces@.len() && #[trigger] self.nonces@[k] == m by {
                        if m == n {
                            assert(self.nonces@[l] == m);
                        } else {
                            assert(old_records.contains_key(m));
                            let k = choose|k: int| 0 <= k < nonces0.len() && #[trigger] nonces0[k] == m;
                            assert(self.nonces@[k] == m);
                        }
                    }
                }
                Submission { result: SubmitResult::Accepted, finalized }
            },
        }
    }
}

} // verus!
