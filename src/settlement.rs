//! The denomination registry and the settlement engine: attested deposits become credits to
//! destination balances, with checked arithmetic on every supply and balance.
use vstd::prelude::*;

use crate::amount::{u256_max, U256};
use crate::event::{bytes_eq, copy_bytes, DepositEvent, EventModel};

verus! {

/// The ledger's balances and denominations as mathematical values. Denomination `d` is
/// the `d`-th asset registered; `supplies[d]` is its total bridged supply and
/// `balances[(account, d)]` the account's balance in it, where the account has an entry.
pub struct LedgerModel {
    pub assets: Seq<Seq<u8>>,
    pub supplies: Seq<nat>,
    pub balances: Map<(Seq<u8>, int), nat>,
}

/// The shape every reachable ledger has: one supply per denomination, each asset
/// registered once, balances only in registered denominations.
pub open spec fn ledger_wf(m: LedgerModel) -> bool {
    &&& m.supplies.len() == m.assets.len()
    &&& forall|i: int, j: int|
        0 <= i < j < m.assets.len() ==> #[trigger] m.assets[i] != #[trigger] m.assets[j]
    &&& forall|k: (Seq<u8>, int)| #[trigger] m.balances.contains_key(k) ==> k.1 < m.assets.len()
    &&& forall|d: int| 0 <= d < m.supplies.len() ==> #[trigger] m.supplies[d] <= u256_max()
    &&& forall|k: (Seq<u8>, int)| #[trigger]
        m.balances.contains_key(k) ==> m.balances[k] <= u256_max()
}

/// The balance of `account` in denomination `d`: zero where it has no entry.
pub open spec fn balance_in(m: LedgerModel, account: Seq<u8>, d: int) -> nat {
    if m.balances.contains_key((account, d)) {
        m.balances[(account, d)]
    } else {
        0
    }
}

/// The denomination of a registered asset.
pub open spec fn asset_index(assets: Seq<Seq<u8>>, asset: Seq<u8>) -> int {
    choose|i: int| 0 <= i < assets.len() && assets[i] == asset
}

/// The ledger once `asset` has a denomination: unchanged where it had one, else with a
/// new denomination of supply zero at the end.
pub open spec fn with_asset(m: LedgerModel, asset: Seq<u8>) -> LedgerModel {
    if m.assets.contains(asset) {
        m
    } else {
        LedgerModel { assets: m.assets.push(asset), supplies: m.supplies.push(0), balances: m.balances }
    }
}

/// Whether crediting `amount` of denomination `d` to `account` keeps both the supply and
/// the balance within 256 bits.
pub open spec fn credit_fits(m: LedgerModel, d: int, account: Seq<u8>, amount: nat) -> bool {
    &&& m.supplies[d] + amount <= u256_max()
    &&& balance_in(m, account, d) + amount <= u256_max()
}

/// The ledger after crediting `amount` of denomination `d` to `account`.
pub open spec fn credited(m: LedgerModel, d: int, account: Seq<u8>, amount: nat) -> LedgerModel {
    LedgerModel {
        assets: m.assets,
        supplies: m.supplies.update(d, m.supplies[d] + amount),
        balances: m.balances.insert((account, d), balance_in(m, account, d) + amount),
    }
}

/// The denomination that settling `e` on `m` uses.
pub open spec fn settled_denom(m: LedgerModel, e: EventModel) -> int {
    asset_index(with_asset(m, e.asset).assets, e.asset)
}

/// Whether settling `e` on `m` credits the destination.
pub open spec fn settle_credits(m: LedgerModel, e: EventModel) -> bool {
    credit_fits(with_asset(m, e.asset), settled_denom(m, e), e.destination, e.amount)
}

/// The ledger after settling `e`: its asset is registered, and the destination is
/// credited when the credit fits; otherwise nothing else changes.
pub open spec fn settled(m: LedgerModel, e: EventModel) -> LedgerModel {
    let m1 = with_asset(m, e.asset);
    if settle_credits(m, e) {
        credited(m1, settled_denom(m, e), e.destination, e.amount)
    } else {
        m1
    }
}

/// The ledger with no denominations and no balances.
pub open spec fn empty_ledger() -> LedgerModel {
    LedgerModel { assets: Seq::empty(), supplies: Seq::empty(), balances: Map::empty() }
}

/// An overflowing credit changes nothing at all: not the denomination's supply, not the
/// destination's balance, and no other denomination or account. (A credit to a new
/// denomination never overflows, so not even a registration happens.)
pub proof fn lemma_overflow_isolation(m: LedgerModel, e: EventModel)
    requires
        ledger_wf(m),
        e.amount <= u256_max(),
        !settle_credits(m, e),
    ensures
        settled(m, e) == m,
{
    lemma_settled_denom(m, e);
    if !m.assets.contains(e.asset) {
        assert(!m.balances.contains_key((e.destination, m.assets.len() as int)));
    }
}

/// The denomination that settling `e` uses is registered to `e`'s asset; for an unseen
/// asset it is the new, last one.
pub proof fn lemma_settled_denom(m: LedgerModel, e: EventModel)
    requires
        ledger_wf(m),
    ensures
        ledger_wf(with_asset(m, e.asset)),
        settled_denom(m, e) < with_asset(m, e.asset).assets.len(),
        with_asset(m, e.asset).assets[settled_denom(m, e)] == e.asset,
        !m.assets.contains(e.asset) ==> settled_denom(m, e) == m.assets.len(),
{
    let m1 = with_asset(m, e.asset);
    if m.assets.contains(e.asset) {
        let i = choose|i: int| 0 <= i < m.assets.len() && m.assets[i] == e.asset;
        assert(m1.assets[i] == e.asset);
    } else {
        let d = m.assets.len() as int;
        assert(m1.assets == m.assets.push(e.asset));
        assert(m1.assets[d] == e.asset);
        let k = settled_denom(m, e);
        if k != d {
            assert(m.assets[k] == m1.assets[k]);
        }
        assert forall|i: int, j: int|
            0 <= i < j < m1.assets.len() implies #[trigger] m1.assets[i] != #[trigger] m1.assets[j] by {
            if j == d {
                assert(m.assets[i] == m1.assets[i]);
            }
        }
        assert forall|d2: int| 0 <= d2 < m1.supplies.len() implies #[trigger] m1.supplies[d2] <= u256_max() by {
            if d2 < m.supplies.len() {
                assert(m1.supplies[d2] == m.supplies[d2]);
            }
        }
    }
}

/// A credit that fits changes exactly one supply and one balance: those of the event's
/// denomination and destination, each by the event's amount.
pub proof fn lemma_credit_locality(m: LedgerModel, e: EventModel, d: int, k: (Seq<u8>, int))
    requires
        ledger_wf(m),
        settle_credits(m, e),
        0 <= d < with_asset(m, e.asset).supplies.len(),
        d != settled_denom(m, e),
        k != (e.destination, settled_denom(m, e)),
    ensures
        settled(m, e).supplies[d] == with_asset(m, e.asset).supplies[d],
        settled(m, e).supplies[settled_denom(m, e)] == with_asset(m, e.asset).supplies[settled_denom(m, e)] + e.amount,
        settled(m, e).balances.contains_key(k) == m.balances.contains_key(k),
        balance_in(settled(m, e), k.0, k.1) == balance_in(m, k.0, k.1),
        balance_in(settled(m, e), e.destination, settled_denom(m, e)) == balance_in(m, e.destination, settled_denom(m, e)) + e.amount,
{
    lemma_settled_denom(m, e);
}

/// What settling one event did.
#[derive(Clone, Debug)]
pub enum SettlementOutcome {
    /// `amount` of denomination `denom` was credited to `account`.
    Credited { account: Vec<u8>, denom: usize, amount: U256 },
    /// The credit of `amount` would have overflowed denomination `denom`; nothing changed.
    SkippedOverflow { denom: usize, amount: U256 },
}

/// Whether `o` reports what settling `e` on `m` does: a credit of the event's amount to
/// its destination, or an overflow, in the denomination of the event's asset.
pub open spec fn outcome_matches(m: LedgerModel, e: EventModel, o: SettlementOutcome) -> bool {
    match o {
        SettlementOutcome::Credited { account, denom, amount } => {
            &&& settle_credits(m, e)
            &&& denom as int == settled_denom(m, e)
            &&& account@ == e.destination
            &&& amount@ == e.amount
        },
        SettlementOutcome::SkippedOverflow { denom, amount } => {
            &&& !settle_credits(m, e)
            &&& denom as int == settled_denom(m, e)
            &&& amount@ == e.amount
        },
    }
}

/// Whether `coin` appears in `coins`: the first coin there of its denomination carries the
/// same amount.
pub open spec fn coin_listed(coins: Seq<(usize, U256)>, coin: (usize, U256)) -> bool {
    exists|j: int|
        0 <= j < coins.len() && (#[trigger] coins[j]).0 == coin.0 && coins[j].1@ == coin.1@
            && forall|k: int| 0 <= k < j ==> (#[trigger] coins[k]).0 != coin.0
}

/// The position of the first coin of denomination `denom`.
fn find_coin(expected: &Vec<(usize, U256)>, denom: usize) -> (r: Option<usize>)
    ensures
        r matches Some(j) ==> j < expected@.len() && expected@[j as int].0 == denom && forall|k: int|
            0 <= k < j ==> (#[trigger] expected@[k]).0 != denom,
        r is None ==> forall|k: int| 0 <= k < expected@.len() ==> (#[trigger] expected@[k]).0 != denom,
{
    let mut j: usize = 0;
    while j < expected.len()
        invariant
            j <= expected@.len(),
            forall|k: int| 0 <= k < j ==> (#[trigger] expected@[k]).0 != denom,
        decreases expected@.len() - j,
    {
        if expected[j].0 == denom {
            return Some(j);
        }
        j = j + 1;
    }
    None
}

/// Whether every coin of `coins` appears in `within` with its amount.
fn all_listed(coins: &Vec<(usize, U256)>, within: &Vec<(usize, U256)>) -> (r: bool)
    ensures
        r == forall|i: int| 0 <= i < coins@.len() ==> coin_listed(within@, #[trigger] coins@[i]),
{
    let mut i: usize = 0;
    while i < coins.len()
        invariant
            i <= coins@.len(),
            forall|k: int| 0 <= k < i ==> coin_listed(within@, #[trigger] coins@[k]),
        decreases coins@.len() - i,
    {
        let coin = coins[i];
        match find_coin(within, coin.0) {
            Some(j) => {
                if !within[j].1.is_equal(&coin.1) {
                    proof {
                        assert forall|j2: int|
                            0 <= j2 < within@.len() && (#[trigger] within@[j2]).0 == coin.0
                                && within@[j2].1@ == coin.1@ implies exists|k: int|
                            0 <= k < j2 && (#[trigger] within@[k]).0 == coin.0 by {
                            if j2 > j {
                                assert(within@[j as int].0 == coin.0);
                            }
                        }
                        assert(!coin_listed(within@, coins@[i as int]));
                    }
                    return false;
                }
            },
            None => {
                return false;
            },
        }
        i = i + 1;
    }
    true
}

/// Whether an account's balances, as `(denomination, amount)` coins, are exactly the
/// expected ones: there are no more of them than expected coins, each of them appears
/// among the expected coins with its amount, and each expected coin appears among them
/// with its amount.
pub fn balances_match(current: &Vec<(usize, U256)>, expected: &Vec<(usize, U256)>) -> (r: bool)
    ensures
        r == (current@.len() <= expected@.len() && (forall|i: int|
            0 <= i < current@.len() ==> coin_listed(expected@, #[trigger] current@[i])) && (forall|
            i: int,
        | 0 <= i < expected@.len() ==> coin_listed(current@, #[trigger] expected@[i]))),
{
    current.len() <= expected.len() && all_listed(current, expected) && all_listed(expected, current)
}

/// Denominations with their supplies, and account balances.
pub struct Settlement {
    assets: Vec<Vec<u8>>,
    supplies: Vec<U256>,
    holders: Vec<(Vec<u8>, usize)>,
    amounts: Vec<U256>,
    balance_map: Ghost<Map<(Seq<u8>, int), nat>>,
}

/// The key of a balance entry.
pub open spec fn holder_key(h: (Vec<u8>, usize)) -> (Seq<u8>, int) {
    (h.0@, h.1 as int)
}

impl View for Settlement {
    type V = LedgerModel;

    closed spec fn view(&self) -> LedgerModel {
        LedgerModel {
            assets: self.assets@.map_values(|a: Vec<u8>| a@),
            supplies: self.supplies@.map_values(|s: U256| s@),
            balances: self.balance_map@,
        }
    }
}

impl Settlement {
    /// The storage agrees with the model, and the model is well formed.
    pub closed spec fn wf(&self) -> bool {
        &&& self.supplies@.len() == self.assets@.len()
        &&& self.amounts@.len() == self.holders@.len()
        &&& forall|i: int, j: int|
            0 <= i < j < self.holders@.len() ==> holder_key(#[trigger] self.holders@[i])
                != holder_key(#[trigger] self.holders@[j])
        &&& forall|i: int|
            0 <= i < self.holders@.len() ==> #[trigger] self.balance_map@.contains_key(
                holder_key(self.holders@[i]),
            ) && self.balance_map@[holder_key(self.holders@[i])] == self.amounts@[i]@
        &&& forall|k: (Seq<u8>, int)| #[trigger]
            self.balance_map@.contains_key(k) ==> exists|i: int|
                0 <= i < self.holders@.len() && holder_key(#[trigger] self.holders@[i]) == k
        &&& ledger_wf(self@)
    }

    /// An empty ledger: no denominations and no balances.
    pub fn new() -> (r: Settlement)
        ensures
            r.wf(),
            r@ == empty_ledger(),
    {
        let r = Settlement {
            assets: Vec::new(),
            supplies: Vec::new(),
            holders: Vec::new(),
            amounts: Vec::new(),
            balance_map: Ghost(Map::empty()),
        };
        assert(r@.assets =~= Seq::<Seq<u8>>::empty());
        assert(r@.supplies =~= Seq::<nat>::empty());
        r
    }

    /// The ledger model of a well-formed store is well formed.
    pub proof fn lemma_ledger_wf(&self)
        requires
            self.wf(),
        ensures
            ledger_wf(self@),
    {
    }

    /// The denomination of `asset`, if it has one.
    pub fn get_denomination(&self, asset: &Vec<u8>) -> (r: Option<usize>)
        requires
            self.wf(),
        ensures
            r is None <==> !self@.assets.contains(asset@),
            r matches Some(d) ==> d == asset_index(self@.assets, asset@) && d < self@.assets.len()
                && self@.assets[d as int] == asset@,
    {
        let mut i: usize = 0;
        while i < self.assets.len()
            invariant
                self.wf(),
                i <= self.assets@.len(),
                forall|j: int| 0 <= j < i ==> self@.assets[j] != asset@,
            decreases self.assets@.len() - i,
        {
            if bytes_eq(&self.assets[i], asset) {
                proof {
                    let k = asset_index(self@.assets, asset@);
                    assert(self@.assets[i as int] == asset@);
                    assert(k < self@.assets.len() && self@.assets[k as int] == asset@);
                    if k != i {
                        if k < i {
                            assert(self@.assets[k as int] != self@.assets[i as int]);
                        } else {
                            assert(self@.assets[i as int] != self@.assets[k as int]);
                        }
                    }
                }
                return Some(i);
            }
            i = i + 1;
        }
        proof {
            if self@.assets.contains(asset@) {
                let j = choose|j: int| 0 <= j < self@.assets.len() && self@.assets[j] == asset@;
                assert(self@.assets[j] != asset@);
            }
        }
        None
    }

    /// The denomination of the asset: the existing one, or a new one of supply zero.
    pub fn resolve_or_create(&mut self, asset: &Vec<u8>) -> (d: usize)
        requires
            old(self).wf(),
        ensures
            final(self).wf(),
            final(self)@ == with_asset(old(self)@, asset@),
            d == asset_index(final(self)@.assets, asset@),
            d < final(self)@.assets.len(),
            final(self)@.assets[d as int] == asset@,
    {
        match self.get_denomination(asset) {
            Some(d) => d,
            None => {
                let d = self.assets.len();
                let ghost m = self@;
                self.assets.push(copy_bytes(asset));
                self.supplies.push(U256::zero());
                proof {
                    assert(self@.assets =~= m.assets.push(asset@));
                    assert(self@.supplies =~= m.supplies.push(0));
                    assert(self@ == with_asset(m, asset@));
                    assert forall|i: int, j: int|
                        0 <= i < j < self@.assets.len() implies #[trigger] self@.assets[i]
                        != #[trigger] self@.assets[j] by {
                        if j == d {
                            assert(m.assets[i] == self@.assets[i]);
                        }
                    }
                    let k = asset_index(self@.assets, asset@);
                    assert(self@.assets[d as int] == asset@);
                    if k != d {
                        assert(self@.assets[k as int] != self@.assets[d as int]);
                    }
                }
                d
            },
        }
    }

    /// The asset of denomination `d`, if it exists.
    pub fn asset_of(&self, d: usize) -> (r: Option<Vec<u8>>)
        requires
            self.wf(),
        ensures
            r is None <==> d >= self@.assets.len(),
            r matches Some(a) ==> a@ == self@.assets[d as int],
    {
        if d < self.assets.len() {
            Some(copy_bytes(&self.assets[d]))
        } else {
            None
        }
    }

    /// The number of denominations.
    pub fn denomination_count(&self) -> (r: usize)
        requires
            self.wf(),
        ensures
            r == self@.assets.len(),
    {
        self.assets.len()
    }

    /// The total bridged supply of denomination `d`.
    pub fn total_bridged_supply(&self, d: usize) -> (r: U256)
        requires
            self.wf(),
            d < self@.assets.len(),
        ensures
            r@ == self@.supplies[d as int],
    {
        self.supplies[d]
    }

    /// The index of the balance entry of `account` in denomination `d`.
    fn find_holder(&self, account: &Vec<u8>, d: usize) -> (r: Option<usize>)
        requires
            self.wf(),
        ensures
            r is None <==> !self@.balances.contains_key((account@, d as int)),
            r matches Some(i) ==> i < self.holders@.len() && holder_key(self.holders@[i as int])
                == (account@, d as int),
    {
        let mut i: usize = 0;
        while i < self.holders.len()
            invariant
                self.wf(),
                i <= self.holders@.len(),
                forall|j: int| 0 <= j < i ==> holder_key(#[trigger] self.holders@[j]) != (account@, d as int),
            decreases self.holders@.len() - i,
        {
            if self.holders[i].1 == d && bytes_eq(&self.holders[i].0, account) {
                proof {
                    assert(self.balance_map@.contains_key(holder_key(self.holders@[i as int])));
                }
                return Some(i);
            }
            i = i + 1;
        }
        None
    }

    /// The balance of `account` in denomination `d`, if the account has an entry there.
    pub fn get_balance(&self, account: &Vec<u8>, d: usize) -> (r: Option<U256>)
        requires
            self.wf(),
        ensures
            r is None <==> !self@.balances.contains_key((account@, d as int)),
            r matches Some(b) ==> b@ == self@.balances[(account@, d as int)],
    {
        match self.find_holder(account, d) {
            Some(i) => {
                proof {
                    assert(self.balance_map@.contains_key(holder_key(self.holders@[i as int])));
                }
                Some(self.amounts[i])
            },
            None => None,
        }
    }

    /// Settles one attested deposit: registers its asset if unseen, then credits the
    /// destination when both the supply and the balance stay within 256 bits. An
    /// overflowing credit changes nothing and is reported, not raised.
    pub fn apply(&mut self, event: &DepositEvent) -> (r: SettlementOutcome)
        requires
            old(self).wf(),
        ensures
            final(self).wf(),
            final(self)@ == settled(old(self)@, event@),
            outcome_matches(old(self)@, event@, r),
    {
        let d = self.resolve_or_create(&event.source_asset);
        let ghost m1 = self@;
        let supply = self.supplies[d];
        let new_supply = match supply.checked_add(&event.amount) {
            Some(s) => s,
            None => {
                return SettlementOutcome::SkippedOverflow { denom: d, amount: event.amount };
            },
        };
        match self.find_holder(&event.destination, d) {
            Some(i) => {
                proof {
                    assert(self.balance_map@.contains_key(holder_key(self.holders@[i as int])));
                }
                let new_balance = match self.amounts[i].checked_add(&event.amount) {
                    Some(b) => b,
                    None => {
                        return SettlementOutcome::SkippedOverflow { denom: d, amount: event.amount };
                    },
                };
                self.supplies.set(d, new_supply);
                self.amounts.set(i, new_balance);
                proof {
                    self.balance_map@ = self.balance_map@.insert((event.destination@, d as int), new_balance@);
                    self.lemma_credit_wf(m1, d as int, event.destination@, event.amount@);
                }
            },
            None => {
                let ghost h0 = self.holders@;
                let ghost bm0 = self.balance_map@;
                self.supplies.set(d, new_supply);
                self.holders.push((copy_bytes(&event.destination), d));
                self.amounts.push(event.amount);
                proof {
                    self.balance_map@ = self.balance_map@.insert((event.destination@, d as int), event.amount@);
                    assert forall|k: (Seq<u8>, int)| #[trigger]
                        self.balance_map@.contains_key(k) implies exists|i: int|
                            0 <= i < self.holders@.len() && holder_key(#[trigger] self.holders@[i])
                                == k by {
                        if k == (event.destination@, d as int) {
                            assert(holder_key(self.holders@[h0.len() as int]) == k);
                        } else {
                            assert(bm0.contains_key(k));
                            let i = choose|i: int| 0 <= i < h0.len() && holder_key(#[trigger] h0[i]) == k;
                            assert(holder_key(self.holders@[i]) == k);
                        }
                    }
                    self.lemma_credit_wf(m1, d as int, event.destination@, event.amount@);
                }
            },
        }
        SettlementOutcome::Credited { account: copy_bytes(&event.destination), denom: d, amount: event.amount }
    }

    /// After a credit, storage and model still agree.
    proof fn lemma_credit_wf(&self, m1: LedgerModel, d: int, account: Seq<u8>, amount: nat)
        requires
            ledger_wf(m1),
            0 <= d < m1.assets.len(),
            credit_fits(m1, d, account, amount),
            self.supplies@.len() == self.assets@.len(),
            self.amounts@.len() == self.holders@.len(),
            self@.assets == m1.assets,
            self.supplies@[d as int]@ == m1.supplies[d as int] + amount,
            forall|j: int| 0 <= j < self.supplies@.len() && j != d ==> #[trigger] self.supplies@[j]@ == m1.supplies[j],
            self.balance_map@ == m1.balances.insert((account, d), balance_in(m1, account, d) + amount),
            forall|i: int, j: int|
                0 <= i < j < self.holders@.len() ==> holder_key(#[trigger] self.holders@[i])
                    != holder_key(#[trigger] self.holders@[j]),
            forall|i: int|
                0 <= i < self.holders@.len() ==> #[trigger] self.balance_map@.contains_key(
                    holder_key(self.holders@[i]),
                ) && self.balance_map@[holder_key(self.holders@[i])] == self.amounts@[i]@,
            forall|k: (Seq<u8>, int)| #[trigger]
                self.balance_map@.contains_key(k) ==> exists|i: int|
                    0 <= i < self.holders@.len() && holder_key(#[trigger] self.holders@[i]) == k,
        ensures
            self.wf(),
            self@ == credited(m1, d, account, amount),
    {
        assert(self@.supplies =~= m1.supplies.update(d as int, m1.supplies[d as int] + amount));
    }
}

} // verus!
