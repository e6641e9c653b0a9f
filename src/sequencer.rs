//! The nonce sequencer: attested events reach settlement in strictly increasing,
//! contiguous nonce order, each once; events that arrive early wait in a buffer.
use vstd::prelude::*;

use crate::event::{DepositEvent, EventModel};

verus! {

/// Whether `ready` is the run that follows `last`: nonces `last + 1`, `last + 2`, ...
pub open spec fn contiguous_after(ready: Seq<DepositEvent>, last: u64) -> bool {
    forall|j: int| 0 <= j < ready.len() ==> (#[trigger] ready[j]).event_nonce == last + 1 + j
}

/// Whether every event of `ready` after the first is the buffered event of its nonce.
pub open spec fn drained_from(ready: Seq<DepositEvent>, buffered: Map<u64, EventModel>) -> bool {
    forall|j: int|
        1 <= j < ready.len() ==> buffered.contains_key((#[trigger] ready[j]).event_nonce)
            && buffered[ready[j].event_nonce] == ready[j]@
}

/// The last observed nonce and the attested events buffered until their turn.
pub struct Sequencer {
    last_observed: u64,
    buffer: Vec<DepositEvent>,
    buffer_map: Ghost<Map<u64, EventModel>>,
}

impl Sequencer {
    /// The highest nonce handed to settlement; zero before the first.
    pub closed spec fn last(&self) -> u64 {
        self.last_observed
    }

    /// Every attested event that was buffered, by nonce; those at or below `last()` have
    /// been handed on or discarded.
    pub closed spec fn buffered(&self) -> Map<u64, EventModel> {
        self.buffer_map@
    }

    /// The buffer and its map agree, one event per nonce.
    closed spec fn synced(&self) -> bool {
        &&& forall|i: int, j: int|
            0 <= i < j < self.buffer@.len() ==> (#[trigger] self.buffer@[i]).event_nonce
                != (#[trigger] self.buffer@[j]).event_nonce
        &&& forall|i: int|
            0 <= i < self.buffer@.len() ==> #[trigger] self.buffer_map@.contains_key(
                self.buffer@[i].event_nonce,
            ) && self.buffer_map@[self.buffer@[i].event_nonce] == self.buffer@[i]@
        &&& forall|n: u64| #[trigger]
            self.buffer_map@.contains_key(n) ==> exists|i: int|
                0 <= i < self.buffer@.len() && (#[trigger] self.buffer@[i]).event_nonce == n
    }

    /// Storage and model agree, and only events still ahead of the next nonce wait.
    pub closed spec fn wf(&self) -> bool {
        &&& self.synced()
        &&& forall|n: u64| #[trigger] self.buffer_map@.contains_key(n) ==> n > self.last_observed + 1
    }

    /// Every buffered event is ahead of the next nonce due.
    pub proof fn lemma_buffer_ahead(&self)
        requires
            self.wf(),
        ensures
            forall|n: u64| #[trigger] self.buffered().contains_key(n) ==> n > self.last() + 1,
    {
    }

    /// A sequencer before the first event: last observed nonce zero, nothing buffered.
    pub fn new() -> (r: Sequencer)
        ensures
            r.wf(),
            r.last() == 0,
            r.buffered() == Map::<u64, EventModel>::empty(),
    {
        Sequencer { last_observed: 0, buffer: Vec::new(), buffer_map: Ghost(Map::empty()) }
    }

    /// The highest nonce handed to settlement.
    pub fn get_last_observed_nonce(&self) -> (r: u64)
        ensures
            r == self.last(),
    {
        self.last_observed
    }

    /// The position of the buffered event with nonce `n`.
    fn find_synced(&self, n: u64) -> (r: Option<usize>)
        requires
            self.synced(),
        ensures
            r is None <==> !self.buffered().contains_key(n),
            r matches Some(i) ==> i < self.buffer@.len() && self.buffer@[i as int].event_nonce == n
                && self.buffered()[n] == self.buffer@[i as int]@,
    {
        let mut i: usize = 0;
        while i < self.buffer.len()
            invariant
                self.synced(),
                i <= self.buffer@.len(),
                forall|j: int| 0 <= j < i ==> (#[trigger] self.buffer@[j]).event_nonce != n,
            decreases self.buffer@.len() - i,
        {
            if self.buffer[i].event_nonce == n {
                proof {
                    assert(self.buffer_map@.contains_key(self.buffer@[i as int].event_nonce));
                }
                return Some(i);
            }
            i = i + 1;
        }
        None
    }

    /// Takes one attested event and returns the events now due for settlement, in order.
    /// A stale nonce is discarded; an early one is buffered; the next one is due at once,
    /// together with the buffered events that follow it without a gap.
    pub fn receive(&mut self, event: DepositEvent) -> (ready: Vec<DepositEvent>)
        requires
            old(self).wf(),
        ensures
            final(self).wf(),
            final(self).last() == old(self).last() + ready@.len(),
            contiguous_after(ready@, old(self).last()),
            event.event_nonce <= old(self).last() ==> ready@.len() == 0 && final(self).buffered()
                == old(self).buffered(),
            event.event_nonce > old(self).last() + 1 ==> ready@.len() == 0 && final(self).buffered()
                == (if old(self).buffered().contains_key(event.event_nonce) {
                old(self).buffered()
            } else {
                old(self).buffered().insert(event.event_nonce, event@)
            }),
            event.event_nonce == old(self).last() + 1 ==> {
                &&& ready@.len() >= 1
                &&& ready@[0]@ == event@
                &&& final(self).buffered() == old(self).buffered().restrict(
                    Set::new(|k: u64| k > final(self).last()),
                )
                &&& drained_from(ready@, old(self).buffered())
                &&& final(self).last() == u64::MAX || !old(self).buffered().contains_key(
                    (final(self).last() + 1) as u64,
                )
            },
    {
        let n = event.event_nonce;
        let mut ready: Vec<DepositEvent> = Vec::new();
        if n <= self.last_observed {
            return ready;
        }
        if n - self.last_observed > 1 {
            match self.find_synced(n) {
                Some(_) => {},
                None => {
                    let ghost b0 = self.buffer@;
                    let ghost m0 = self.buffer_map@;
                    self.buffer.push(event.duplicate());
                    proof {
                        self.buffer_map@ = m0.insert(n, event@);
                        assert forall|m: u64| #[trigger] self.buffer_map@.contains_key(m) implies exists|i: int|
                            0 <= i < self.buffer@.len() && (#[trigger] self.buffer@[i]).event_nonce == m by {
                            if m == n {
                                assert(self.buffer@[b0.len() as int].event_nonce == m);
                            } else {
                                let i = choose|i: int| 0 <= i < b0.len() && (#[trigger] b0[i]).event_nonce == m;
                                assert(self.buffer@[i].event_nonce == m);
                            }
                        }
                        assert forall|i: int, j: int|
                            0 <= i < j < self.buffer@.len() implies (#[trigger] self.buffer@[i]).event_nonce
                            != (#[trigger] self.buffer@[j]).event_nonce by {
                            if j == b0.len() {
                                assert(m0.contains_key(b0[i].event_nonce));
                            }
                        }
                    }
                },
            }
            return ready;
        }
        let ghost last0 = self.last_observed;
        let ghost m_old = self.buffer_map@;
        self.last_observed = n;
        ready.push(event);
        assert(self.buffer@ == old(self).buffer@);
        assert(m_old =~= m_old.restrict(Set::new(|k: u64| k > self.last_observed)));
        while self.last_observed < u64::MAX
            invariant
                self.synced(),
                forall|k: u64| #[trigger] self.buffer_map@.contains_key(k) ==> k > self.last_observed,
                self.buffer_map@ == m_old.restrict(Set::new(|k: u64| k > self.last_observed)),
                m_old == old(self).buffer_map@,
                last0 == old(self).last(),
                self.last_observed == last0 + ready@.len(),
                ready@.len() >= 1,
                ready@[0]@ == event@,
                n == last0 + 1,
                contiguous_after(ready@, last0),
                drained_from(ready@, m_old),
            ensures
                self.last_observed == u64::MAX || !self.buffer_map@.contains_key(
                    (self.last_observed + 1) as u64,
                ),
            decreases u64::MAX - self.last_observed,
        {
            match self.find_synced(self.last_observed + 1) {
                Some(i) => {
                    let ghost r0 = ready@;
                    let ghost b0 = self.buffer@;
                    let ghost map0 = self.buffer_map@;
                    let ghost k0 = (self.last_observed + 1) as u64;
                    let e = self.buffer.remove(i);
                    ready.push(e);
                    self.last_observed = self.last_observed + 1;
                    proof {
                        self.buffer_map@ = map0.remove(k0);
                        assert forall|a: int, b: int|
                            0 <= a < b < self.buffer@.len() implies (#[trigger] self.buffer@[a]).event_nonce
                            != (#[trigger] self.buffer@[b]).event_nonce by {
                            let a0 = if a < i { a } else { a + 1 };
                            let b0_ = if b < i { b } else { b + 1 };
                            assert(self.buffer@[a] == b0[a0]);
                            assert(self.buffer@[b] == b0[b0_]);
                        }
                        assert forall|x: int| 0 <= x < self.buffer@.len() implies #[trigger]
                            self.buffer_map@.contains_key(self.buffer@[x].event_nonce)
                                && self.buffer_map@[self.buffer@[x].event_nonce] == self.buffer@[x]@ by {
                            let x0 = if x < i { x } else { x + 1 };
                            assert(self.buffer@[x] == b0[x0]);
                            assert(map0.contains_key(b0[x0].event_nonce));
                            if x0 < i {
                                assert(b0[x0].event_nonce != b0[i as int].event_nonce);
                            } else {
                                assert(b0[i as int].event_nonce != b0[x0].event_nonce);
                            }
                        }
                        assert forall|m: u64| #[trigger] self.buffer_map@.contains_key(m) implies exists|x: int|
                            0 <= x < self.buffer@.len() && (#[trigger] self.buffer@[x]).event_nonce == m by {
                            assert(map0.contains_key(m));
                            let x0 = choose|x0: int| 0 <= x0 < b0.len() && (#[trigger] b0[x0]).event_nonce == m;
                            assert(x0 != i);
                            let x = if x0 < i { x0 } else { x0 - 1 };
                            assert(self.buffer@[x] == b0[x0]);
                        }
                        assert(self.buffer_map@ =~= m_old.restrict(Set::new(|k: u64| k > self.last_observed)));
                        assert forall|j: int| 0 <= j < ready@.len() implies (#[trigger] ready@[j]).event_nonce
                            == last0 + 1 + j by {
                            if j < r0.len() {
                                assert(ready@[j] == r0[j]);
                            }
                        }
                        assert forall|j: int|
                            1 <= j < ready@.len() implies m_old.contains_key(
                                (#[trigger] ready@[j]).event_nonce,
                            ) && m_old[ready@[j].event_nonce] == ready@[j]@ by {
                            if j < r0.len() {
                                assert(ready@[j] == r0[j]);
                            }
                        }
                    }
                },
                None => {
                    break;
                },
            }
        }
        proof {
            assert(self.buffer_map@ =~= m_old.restrict(Set::new(|k: u64| k > self.last_observed)));
        }
        ready
    }
}

} // verus!
