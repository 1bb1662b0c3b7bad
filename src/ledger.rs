//! The balance ledger: per-account free and locked balances, per-settlement
//! escrow and collected fees, for any number of assets.
//!
//! Every balance is an entry keyed by its holder and its asset. The amount of an
//! asset held anywhere in the ledger (its supply) always equals what came in from
//! outside minus what went out, and never exceeds what an `Amount` can hold.
use crate::sums::{
    all_nonneg, lemma_sum_le, lemma_sum_nonneg, lemma_sum_prefix_le, lemma_sum_push, lemma_sum_single,
    lemma_sum_update, lemma_sum_zero, sum,
};
use crate::types::{Account, Amount, SettlementId};
use vstd::prelude::*;

verus! {

/// Who holds a balance.
#[derive(Clone, Copy, Debug, PartialEq, Eq, Structural)]
pub enum Holder {
    /// Spendable funds of an account.
    Free(Account),
    /// Funds of an account reserved by its open orders.
    Locked(Account),
    /// Funds of an account held for a settlement.
    Escrowed(SettlementId, Account),
    /// Fees collected by the operator.
    Fees,
}

/// One balance of the ledger.
#[derive(Clone, Debug)]
pub struct BalanceEntry {
    pub holder: Holder,
    pub asset: String,
    pub amount: Amount,
}

#[derive(Clone, Copy, Debug, PartialEq, Eq, Structural)]
pub enum LedgerError {
    /// The balance to draw from holds less than the amount asked for.
    InsufficientBalance { required: Amount, available: Amount },
    /// The asset's supply would no longer fit in an `Amount`.
    Overflow,
}

pub struct BalanceLedger {
    entries: Vec<BalanceEntry>,
    deposited: Ghost<Map<Seq<char>, int>>,
    withdrawn: Ghost<Map<Seq<char>, int>>,
}

/// What entry `e` contributes to the balance of `h` in asset `a`.
pub open spec fn holder_term(e: BalanceEntry, h: Holder, a: Seq<char>) -> int {
    if e.holder == h && e.asset@ == a {
        e.amount as int
    } else {
        0
    }
}

/// What entry `e` contributes to the supply of asset `a`.
pub open spec fn asset_term(e: BalanceEntry, a: Seq<char>) -> int {
    if e.asset@ == a {
        e.amount as int
    } else {
        0
    }
}

/// The kind of a holder: free, locked, escrowed or fees.
pub open spec fn kind_of(h: Holder) -> int {
    match h {
        Holder::Free(_) => 0,
        Holder::Locked(_) => 1,
        Holder::Escrowed(_, _) => 2,
        Holder::Fees => 3,
    }
}

/// What entry `e` contributes to the total of asset `a` over all holders of kind `k`.
pub open spec fn kind_term(e: BalanceEntry, a: Seq<char>, k: int) -> int {
    if e.asset@ == a && kind_of(e.holder) == k {
        e.amount as int
    } else {
        0
    }
}

pub open spec fn holder_terms(s: Seq<BalanceEntry>, h: Holder, a: Seq<char>) -> Seq<int> {
    s.map_values(|e: BalanceEntry| holder_term(e, h, a))
}

pub open spec fn asset_terms(s: Seq<BalanceEntry>, a: Seq<char>) -> Seq<int> {
    s.map_values(|e: BalanceEntry| asset_term(e, a))
}

pub open spec fn kind_terms(s: Seq<BalanceEntry>, a: Seq<char>, k: int) -> Seq<int> {
    s.map_values(|e: BalanceEntry| kind_term(e, a, k))
}

/// No two entries share a holder and an asset.
pub open spec fn keys_unique(s: Seq<BalanceEntry>) -> bool {
    forall|i: int, j: int|
        0 <= i < j < s.len() ==> !(#[trigger] s[i].holder == #[trigger] s[j].holder && s[i].asset@
            == s[j].asset@)
}

pub open spec fn flow(m: Map<Seq<char>, int>, a: Seq<char>) -> int {
    if m.dom().contains(a) {
        m[a]
    } else {
        0
    }
}

/// The change that a mutation makes to the balance of `(h, b)` when it adds `d`
/// to the balance of `(h1, a1)`.
pub open spec fn delta(h: Holder, b: Seq<char>, h1: Holder, a1: Seq<char>, d: int) -> int {
    if h == h1 && b == a1 {
        d
    } else {
        0
    }
}

/// The change to the balance of `(h, b)` when `amt` of asset `a` moves from `from` to `to`.
pub open spec fn tdelta(h: Holder, b: Seq<char>, from: Holder, to: Holder, a: Seq<char>, amt: int) -> int {
    delta(h, b, from, a, -amt) + delta(h, b, to, a, amt)
}

impl BalanceLedger {
    /// The balance that `h` holds in asset `a`.
    pub closed spec fn balance(&self, h: Holder, a: Seq<char>) -> int {
        sum(holder_terms(self.entries@, h, a))
    }

    /// The amount of asset `a` held anywhere in the ledger.
    pub closed spec fn supply(&self, a: Seq<char>) -> int {
        sum(asset_terms(self.entries@, a))
    }

    /// The amount of asset `a` over all holders of kind `k` (see `kind_of`).
    pub closed spec fn kind_total(&self, a: Seq<char>, k: int) -> int {
        sum(kind_terms(self.entries@, a, k))
    }

    /// All that came into the ledger in asset `a` from outside.
    pub closed spec fn deposits(&self, a: Seq<char>) -> int {
        flow(self.deposited@, a)
    }

    /// All that left the ledger in asset `a`.
    pub closed spec fn withdrawals(&self, a: Seq<char>) -> int {
        flow(self.withdrawn@, a)
    }

    pub open spec fn free(&self, acct: Account, a: Seq<char>) -> int {
        self.balance(Holder::Free(acct), a)
    }

    pub open spec fn locked(&self, acct: Account, a: Seq<char>) -> int {
        self.balance(Holder::Locked(acct), a)
    }

    pub open spec fn escrowed(&self, sid: SettlementId, acct: Account, a: Seq<char>) -> int {
        self.balance(Holder::Escrowed(sid, acct), a)
    }

    pub open spec fn fees(&self, a: Seq<char>) -> int {
        self.balance(Holder::Fees, a)
    }

    pub closed spec fn entries_wf(&self) -> bool {
        &&& keys_unique(self.entries@)
        &&& forall|a: Seq<char>| #[trigger] self.supply(a) <= u128::MAX
    }

    /// The entries are well formed, and every asset's supply is what came in
    /// minus what went out.
    pub closed spec fn wf(&self) -> bool {
        &&& self.entries_wf()
        &&& forall|a: Seq<char>| #[trigger]
            self.supply(a) == self.deposits(a) - self.withdrawals(a)
    }

    /// Every balance is as in `prev`, but for `(h, a)`, which changed by `d`.
    pub open spec fn changed(&self, prev: &Self, a: Seq<char>, h: Holder, d: int) -> bool {
        forall|h2: Holder, b: Seq<char>| #[trigger]
            self.balance(h2, b) == prev.balance(h2, b) + delta(h2, b, h, a, d)
    }

    /// Every balance is as in `prev`, but for `(h1, a)` and `(h2, a)`, which
    /// changed by `d1` and `d2`.
    pub open spec fn moved(
        &self,
        prev: &Self,
        a: Seq<char>,
        h1: Holder,
        d1: int,
        h2: Holder,
        d2: int,
    ) -> bool {
        forall|h: Holder, b: Seq<char>| #[trigger]
            self.balance(h, b) == prev.balance(h, b) + delta(h, b, h1, a, d1) + delta(
                h,
                b,
                h2,
                a,
                d2,
            )
    }

    /// What came in and went out is as in `prev`, but for asset `a`, of which
    /// `inflow` came in and `outflow` went out.
    pub open spec fn flows(&self, prev: &Self, a: Seq<char>, inflow: int, outflow: int) -> bool {
        &&& forall|b: Seq<char>| #[trigger]
            self.deposits(b) == prev.deposits(b) + if b == a {
                inflow
            } else {
                0
            }
        &&& forall|b: Seq<char>| #[trigger]
            self.withdrawals(b) == prev.withdrawals(b) + if b == a {
                outflow
            } else {
                0
            }
    }

    /// Nothing came in or went out.
    pub open spec fn same_flows(&self, prev: &Self) -> bool {
        &&& forall|b: Seq<char>| #[trigger] self.deposits(b) == prev.deposits(b)
        &&& forall|b: Seq<char>| #[trigger] self.withdrawals(b) == prev.withdrawals(b)
    }

    /// An empty ledger.
    pub fn new() -> (r: BalanceLedger)
        ensures
            r.wf(),
            forall|h: Holder, a: Seq<char>| #[trigger] r.balance(h, a) == 0,
            forall|a: Seq<char>| #[trigger] r.deposits(a) == 0,
            forall|a: Seq<char>| #[trigger] r.withdrawals(a) == 0,
    {
        let r = BalanceLedger {
            entries: Vec::new(),
            deposited: Ghost(Map::empty()),
            withdrawn: Ghost(Map::empty()),
        };
        assert forall|h: Holder, a: Seq<char>| #[trigger] r.balance(h, a) == 0 by {
            assert(holder_terms(r.entries@, h, a).len() == 0);
        }
        assert forall|a: Seq<char>| #[trigger] r.supply(a) == 0 by {
            assert(asset_terms(r.entries@, a).len() == 0);
        }
        r
    }

    proof fn lemma_nonneg(s: Seq<BalanceEntry>, h: Holder, a: Seq<char>)
        ensures
            all_nonneg(holder_terms(s, h, a)),
            all_nonneg(asset_terms(s, a)),
            sum(holder_terms(s, h, a)) >= 0,
            sum(holder_terms(s, h, a)) <= sum(asset_terms(s, a)),
    {
        let ht = holder_terms(s, h, a);
        let at = asset_terms(s, a);
        assert(all_nonneg(ht));
        assert(all_nonneg(at));
        lemma_sum_nonneg(ht);
        lemma_sum_le(ht, at);
    }

    /// A balance is never negative and never above its asset's supply.
    pub proof fn lemma_balance_bounds(&self, h: Holder, a: Seq<char>)
        ensures
            0 <= self.balance(h, a) <= self.supply(a),
    {
        Self::lemma_nonneg(self.entries@, h, a);
    }

    proof fn lemma_balance_at(s: Seq<BalanceEntry>, i: int)
        requires
            keys_unique(s),
            0 <= i < s.len(),
        ensures
            sum(holder_terms(s, s[i].holder, s[i].asset@)) == s[i].amount,
    {
        let t = holder_terms(s, s[i].holder, s[i].asset@);
        assert forall|j: int| 0 <= j < t.len() && j != i implies #[trigger] t[j] == 0 by {
            if j < i {
                assert(!(s[j].holder == s[i].holder && s[j].asset@ == s[i].asset@));
            } else {
                assert(!(s[i].holder == s[j].holder && s[i].asset@ == s[j].asset@));
            }
        }
        lemma_sum_single(t, i);
    }

    fn find(&self, h: Holder, asset: &String) -> (r: Option<usize>)
        ensures
            match r {
                Some(i) => i < self.entries@.len() && self.entries@[i as int].holder == h
                    && self.entries@[i as int].asset@ == asset@,
                None => forall|i: int|
                    0 <= i < self.entries@.len() ==> !(#[trigger] self.entries@[i].holder == h
                        && self.entries@[i].asset@ == asset@),
            },
    {
        let mut i: usize = 0;
        while i < self.entries.len()
            invariant
                i <= self.entries@.len(),
                forall|j: int|
                    0 <= j < i ==> !(#[trigger] self.entries@[j].holder == h
                        && self.entries@[j].asset@ == asset@),
            decreases self.entries@.len() - i,
        {
            if self.entries[i].holder == h && self.entries[i].asset == *asset {
                return Some(i);
            }
            i = i + 1;
        }
        None
    }

    /// The balance that `h` holds in `asset`.
    pub fn balance_of(&self, h: Holder, asset: &String) -> (r: Amount)
        requires
            self.wf(),
        ensures
            r == self.balance(h, asset@),
    {
        match self.find(h, asset) {
            Some(i) => {
                proof {
                    Self::lemma_balance_at(self.entries@, i as int);
                }
                self.entries[i].amount
            },
            None => {
                proof {
                    lemma_sum_zero(holder_terms(self.entries@, h, asset@));
                }
                0
            },
        }
    }

    pub fn free_balance(&self, acct: Account, asset: &String) -> (r: Amount)
        requires
            self.wf(),
        ensures
            r == self.free(acct, asset@),
    {
        self.balance_of(Holder::Free(acct), asset)
    }

    pub fn locked_balance(&self, acct: Account, asset: &String) -> (r: Amount)
        requires
            self.wf(),
        ensures
            r == self.locked(acct, asset@),
    {
        self.balance_of(Holder::Locked(acct), asset)
    }

    pub fn escrowed_balance(&self, sid: SettlementId, acct: Account, asset: &String) -> (r: Amount)
        requires
            self.wf(),
        ensures
            r == self.escrowed(sid, acct, asset@),
    {
        self.balance_of(Holder::Escrowed(sid, acct), asset)
    }

    pub fn collected_fees(&self, asset: &String) -> (r: Amount)
        requires
            self.wf(),
        ensures
            r == self.fees(asset@),
    {
        self.balance_of(Holder::Fees, asset)
    }

    /// Sets the balance of `(h, asset)` to `v`.
    fn set_balance(&mut self, h: Holder, asset: &String, v: Amount)
        requires
            old(self).entries_wf(),
            old(self).supply(asset@) - old(self).balance(h, asset@) + v <= u128::MAX,
        ensures
            final(self).entries_wf(),
            final(self).changed(old(self), asset@, h, v - old(self).balance(h, asset@)),
            forall|b: Seq<char>| #[trigger]
                final(self).supply(b) == old(self).supply(b) + if b == asset@ {
                    v - old(self).balance(h, asset@)
                } else {
                    0
                },
            final(self).deposited == old(self).deposited,
            final(self).withdrawn == old(self).withdrawn,
    {
        let ghost s = self.entries@;
        let ghost old_bal = self.balance(h, asset@);
        let e = BalanceEntry { holder: h, asset: asset.clone(), amount: v };
        match self.find(h, asset) {
            Some(i) => {
                proof {
                    Self::lemma_balance_at(s, i as int);
                }
                self.entries.set(i, e);
                proof {
                    let s2 = self.entries@;
                    assert(s2 =~= s.update(i as int, e));
                    assert forall|j: int, k: int|
                        0 <= j < k < s2.len() implies !(#[trigger] s2[j].holder
                        == #[trigger] s2[k].holder && s2[j].asset@ == s2[k].asset@) by {
                        assert(!(s[j].holder == s[k].holder && s[j].asset@ == s[k].asset@));
                    }
                    assert forall|h2: Holder, b: Seq<char>| #[trigger]
                        self.balance(h2, b) == old(self).balance(h2, b) + delta(
                            h2,
                            b,
                            h,
                            asset@,
                            v - old_bal,
                        ) by {
                        assert(holder_terms(s2, h2, b) =~= holder_terms(s, h2, b).update(
                            i as int,
                            holder_term(e, h2, b),
                        ));
                        lemma_sum_update(holder_terms(s, h2, b), i as int, holder_term(e, h2, b));
                    }
                    assert forall|b: Seq<char>| #[trigger]
                        self.supply(b) == old(self).supply(b) + if b == asset@ {
                            v - old_bal
                        } else {
                            0
                        } by {
                        assert(asset_terms(s2, b) =~= asset_terms(s, b).update(
                            i as int,
                            asset_term(e, b),
                        ));
                        lemma_sum_update(asset_terms(s, b), i as int, asset_term(e, b));
                    }
                    assert forall|b: Seq<char>| #[trigger] self.supply(b) <= u128::MAX by {
                        assert(old(self).supply(b) <= u128::MAX);
                    }
                }
            },
            None => {
                proof {
                    lemma_sum_zero(holder_terms(s, h, asset@));
                }
                self.entries.push(e);
                proof {
                    let s2 = self.entries@;
                    assert(s2 =~= s.push(e));
                    assert forall|j: int, k: int|
                        0 <= j < k < s2.len() implies !(#[trigger] s2[j].holder
                        == #[trigger] s2[k].holder && s2[j].asset@ == s2[k].asset@) by {
                        if k < s.len() {
                            assert(!(s[j].holder == s[k].holder && s[j].asset@ == s[k].asset@));
                        } else {
                            assert(!(s[j].holder == h && s[j].asset@ == asset@));
                        }
                    }
                    assert forall|h2: Holder, b: Seq<char>| #[trigger]
                        self.balance(h2, b) == old(self).balance(h2, b) + delta(
                            h2,
                            b,
                            h,
                            asset@,
                            v - old_bal,
                        ) by {
                        assert(holder_terms(s2, h2, b) =~= holder_terms(s, h2, b).push(
                            holder_term(e, h2, b),
                        ));
                        lemma_sum_push(holder_terms(s, h2, b), holder_term(e, h2, b));
                    }
                    assert forall|b: Seq<char>| #[trigger]
                        self.supply(b) == old(self).supply(b) + if b == asset@ {
                            v - old_bal
                        } else {
                            0
                        } by {
                        assert(asset_terms(s2, b) =~= asset_terms(s, b).push(asset_term(e, b)));
                        lemma_sum_push(asset_terms(s, b), asset_term(e, b));
                    }
                    assert forall|b: Seq<char>| #[trigger] self.supply(b) <= u128::MAX by {
                        assert(old(self).supply(b) <= u128::MAX);
                    }
                }
            },
        }
    }

    /// The amount of `asset` held anywhere in the ledger.
    pub fn supply_of(&self, asset: &String) -> (r: Amount)
        requires
            self.wf(),
        ensures
            r == self.supply(asset@),
    {
        let ghost t = asset_terms(self.entries@, asset@);
        proof {
            Self::lemma_nonneg(self.entries@, Holder::Fees, asset@);
        }
        let mut acc: Amount = 0;
        let mut i: usize = 0;
        while i < self.entries.len()
            invariant
                i <= self.entries@.len(),
                t == asset_terms(self.entries@, asset@),
                all_nonneg(t),
                acc == sum(t.take(i as int)),
                sum(t) == self.supply(asset@),
                self.supply(asset@) <= u128::MAX,
            decreases self.entries@.len() - i,
        {
            proof {
                assert(t.take(i + 1).drop_last() =~= t.take(i as int));
                lemma_sum_prefix_le(t, i + 1);
            }
            if self.entries[i].asset == *asset {
                acc = acc + self.entries[i].amount;
            }
            i = i + 1;
        }
        proof {
            assert(t.take(i as int) =~= t);
        }
        acc
    }

    /// Adds `amount` of `asset`, coming from outside, to the free balance of `acct`.
    pub fn credit(&mut self, acct: Account, asset: &String, amount: Amount) -> (r: Result<(), LedgerError>)
        requires
            old(self).wf(),
        ensures
            final(self).wf(),
            r is Err <==> old(self).supply(asset@) + amount > u128::MAX,
            r is Err ==> r == Err::<(), LedgerError>(LedgerError::Overflow) && *final(self) == *old(self),
            r is Ok ==> final(self).changed(old(self), asset@, Holder::Free(acct), amount as int)
                && final(self).flows(old(self), asset@, amount as int, 0),
    {
        self.add_from_outside(Holder::Free(acct), asset, amount)
    }

    /// Adds `amount` of `asset`, coming from outside, to the collected fees.
    pub fn credit_fees(&mut self, asset: &String, amount: Amount) -> (r: Result<(), LedgerError>)
        requires
            old(self).wf(),
        ensures
            final(self).wf(),
            r is Err <==> old(self).supply(asset@) + amount > u128::MAX,
            r is Err ==> r == Err::<(), LedgerError>(LedgerError::Overflow) && *final(self) == *old(self),
            r is Ok ==> final(self).changed(old(self), asset@, Holder::Fees, amount as int)
                && final(self).flows(old(self), asset@, amount as int, 0),
    {
        self.add_from_outside(Holder::Fees, asset, amount)
    }

    fn add_from_outside(&mut self, h: Holder, asset: &String, amount: Amount) -> (r: Result<(), LedgerError>)
        requires
            old(self).wf(),
        ensures
            final(self).wf(),
            r is Err <==> old(self).supply(asset@) + amount > u128::MAX,
            r is Err ==> r == Err::<(), LedgerError>(LedgerError::Overflow) && *final(self) == *old(self),
            r is Ok ==> final(self).changed(old(self), asset@, h, amount as int)
                && final(self).flows(old(self), asset@, amount as int, 0),
    {
        let total = self.supply_of(asset);
        if total > u128::MAX - amount {
            return Err(LedgerError::Overflow);
        }
        let cur = self.balance_of(h, asset);
        proof {
            self.lemma_balance_bounds(h, asset@);
        }
        self.set_balance(h, asset, cur + amount);
        let ghost a = asset@;
        let ghost s1 = *self;
        proof {
            self.deposited = Ghost(self.deposited@.insert(a, flow(self.deposited@, a) + amount));
            self.lemma_same_entries(&s1);
        }
        Ok(())
    }

    /// Removes `amount` of `asset` from the free balance of `acct`, to leave the ledger.
    pub fn debit(&mut self, acct: Account, asset: &String, amount: Amount) -> (r: Result<(), LedgerError>)
        requires
            old(self).wf(),
        ensures
            final(self).wf(),
            r is Err <==> old(self).free(acct, asset@) < amount,
            r is Err ==> r == Err::<(), LedgerError>(LedgerError::InsufficientBalance {
                required: amount,
                available: old(self).free(acct, asset@) as u128,
            }) && *final(self) == *old(self),
            r is Ok ==> final(self).changed(old(self), asset@, Holder::Free(acct), -amount)
                && final(self).flows(old(self), asset@, 0, amount as int),
    {
        let cur = self.balance_of(Holder::Free(acct), asset);
        if cur < amount {
            return Err(LedgerError::InsufficientBalance { required: amount, available: cur });
        }
        proof {
            self.lemma_balance_bounds(Holder::Free(acct), asset@);
        }
        self.set_balance(Holder::Free(acct), asset, cur - amount);
        let ghost a = asset@;
        let ghost s1 = *self;
        proof {
            self.withdrawn = Ghost(self.withdrawn@.insert(a, flow(self.withdrawn@, a) + amount));
            self.lemma_same_entries(&s1);
        }
        Ok(())
    }

    /// Moves `amount` of `asset` from holder `from` to holder `to`, within the ledger.
    fn transfer(&mut self, from: Holder, to: Holder, asset: &String, amount: Amount)
        requires
            old(self).wf(),
            from != to,
            old(self).balance(from, asset@) >= amount,
        ensures
            final(self).wf(),
            final(self).moved(old(self), asset@, from, -amount, to, amount as int),
            final(self).same_flows(old(self)),
            forall|b: Seq<char>| #[trigger] final(self).supply(b) == old(self).supply(b),
    {
        let ghost s0 = *self;
        let cur = self.balance_of(from, asset);
        proof {
            self.lemma_balance_bounds(from, asset@);
        }
        self.set_balance(from, asset, cur - amount);
        let ghost s1 = *self;
        let dest = self.balance_of_raw(to, asset);
        proof {
            self.lemma_balance_bounds(to, asset@);
            assert(s1.supply(asset@) + amount == s0.supply(asset@));
            assert(s0.supply(asset@) <= u128::MAX);
        }
        self.set_balance(to, asset, dest + amount);
        proof {
            assert forall|b: Seq<char>| #[trigger] self.supply(b) == s0.supply(b) by {
                assert(s1.supply(b) == s0.supply(b) + if b == asset@ { -amount } else { 0 });
            }
            assert forall|b: Seq<char>| #[trigger] self.supply(b) == self.deposits(b) - self.withdrawals(b) by {
                assert(s0.supply(b) == s0.deposits(b) - s0.withdrawals(b));
            }
            assert forall|h: Holder, b: Seq<char>| #[trigger]
                self.balance(h, b) == s0.balance(h, b) + delta(h, b, from, asset@, -amount) + delta(h, b, to, asset@, amount as int) by {
                assert(s1.balance(h, b) == s0.balance(h, b) + delta(h, b, from, asset@, -amount));
            }
        }
    }

    /// The balance of `(h, asset)` while only the entries are known to be well formed.
    fn balance_of_raw(&self, h: Holder, asset: &String) -> (r: Amount)
        requires
            self.entries_wf(),
        ensures
            r == self.balance(h, asset@),
    {
        match self.find(h, asset) {
            Some(i) => {
                proof {
                    Self::lemma_balance_at(self.entries@, i as int);
                }
                self.entries[i].amount
            },
            None => {
                proof {
                    lemma_sum_zero(holder_terms(self.entries@, h, asset@));
                }
                0
            },
        }
    }

    proof fn lemma_same_entries(&self, other: &Self)
        requires
            self.entries@ == other.entries@,
        ensures
            forall|h: Holder, b: Seq<char>| #[trigger] self.balance(h, b) == other.balance(h, b),
            forall|b: Seq<char>| #[trigger] self.supply(b) == other.supply(b),
            other.entries_wf() ==> self.entries_wf(),
    {
        assert forall|b: Seq<char>| #[trigger] self.supply(b) == other.supply(b) by {}
    }

    /// Moves `amount` of `asset` from the free to the locked balance of `acct`.
    pub fn lock(&mut self, acct: Account, asset: &String, amount: Amount) -> (r: Result<(), LedgerError>)
        requires
            old(self).wf(),
        ensures
            final(self).wf(),
            r is Err <==> old(self).free(acct, asset@) < amount,
            r is Err ==> r == Err::<(), LedgerError>(LedgerError::InsufficientBalance {
                required: amount,
                available: old(self).free(acct, asset@) as u128,
            }) && *final(self) == *old(self),
            r is Ok ==> final(self).moved(old(self), asset@, Holder::Free(acct), -amount, Holder::Locked(acct), amount as int),
            final(self).same_flows(old(self)),
    {
        self.move_checked(Holder::Free(acct), Holder::Locked(acct), asset, amount)
    }

    /// Moves `amount` of `asset` from the free balance of `acct` to the collected fees.
    pub fn charge_fee(&mut self, acct: Account, asset: &String, amount: Amount) -> (r: Result<(), LedgerError>)
        requires
            old(self).wf(),
        ensures
            final(self).wf(),
            r is Err <==> old(self).free(acct, asset@) < amount,
            r is Err ==> r == Err::<(), LedgerError>(LedgerError::InsufficientBalance {
                required: amount,
                available: old(self).free(acct, asset@) as u128,
            }) && *final(self) == *old(self),
            r is Ok ==> final(self).moved(old(self), asset@, Holder::Free(acct), -amount, Holder::Fees, amount as int),
            final(self).same_flows(old(self)),
    {
        self.move_checked(Holder::Free(acct), Holder::Fees, asset, amount)
    }

    /// Moves `amount` of `asset` from the free balance of `acct` into the escrow
    /// of settlement `sid`.
    pub fn escrow(&mut self, sid: SettlementId, acct: Account, asset: &String, amount: Amount) -> (r: Result<(), LedgerError>)
        requires
            old(self).wf(),
        ensures
            final(self).wf(),
            r is Err <==> old(self).free(acct, asset@) < amount,
            r is Err ==> r == Err::<(), LedgerError>(LedgerError::InsufficientBalance {
                required: amount,
                available: old(self).free(acct, asset@) as u128,
            }) && *final(self) == *old(self),
            r is Ok ==> final(self).moved(old(self), asset@, Holder::Free(acct), -amount, Holder::Escrowed(sid, acct), amount as int),
            final(self).same_flows(old(self)),
    {
        self.move_checked(Holder::Free(acct), Holder::Escrowed(sid, acct), asset, amount)
    }

    fn move_checked(&mut self, from: Holder, to: Holder, asset: &String, amount: Amount) -> (r: Result<(), LedgerError>)
        requires
            old(self).wf(),
            from != to,
        ensures
            final(self).wf(),
            r is Err <==> old(self).balance(from, asset@) < amount,
            r is Err ==> r == Err::<(), LedgerError>(LedgerError::InsufficientBalance {
                required: amount,
                available: old(self).balance(from, asset@) as u128,
            }) && *final(self) == *old(self),
            r is Ok ==> final(self).moved(old(self), asset@, from, -amount, to, amount as int),
            final(self).same_flows(old(self)),
    {
        let cur = self.balance_of(from, asset);
        if cur < amount {
            return Err(LedgerError::InsufficientBalance { required: amount, available: cur });
        }
        self.transfer(from, to, asset, amount);
        Ok(())
    }

    /// Moves `amount` of `asset` from the locked back to the free balance of `acct`.
    pub fn unlock(&mut self, acct: Account, asset: &String, amount: Amount)
        requires
            old(self).wf(),
            old(self).locked(acct, asset@) >= amount,
        ensures
            final(self).wf(),
            final(self).moved(old(self), asset@, Holder::Locked(acct), -amount, Holder::Free(acct), amount as int),
            final(self).same_flows(old(self)),
    {
        self.transfer(Holder::Locked(acct), Holder::Free(acct), asset, amount);
    }

    /// Moves `amount` of `asset` from the locked balance of `from` to the free
    /// balance of `to`: the two sides of a fill.
    pub fn move_locked(&mut self, from: Account, to: Account, asset: &String, amount: Amount)
        requires
            old(self).wf(),
            old(self).locked(from, asset@) >= amount,
        ensures
            final(self).wf(),
            final(self).moved(old(self), asset@, Holder::Locked(from), -amount, Holder::Free(to), amount as int),
            final(self).same_flows(old(self)),
    {
        self.transfer(Holder::Locked(from), Holder::Free(to), asset, amount);
    }

    /// Empties the escrow of `acct` in `asset` for settlement `sid` into the free
    /// balance of `to`, and returns the amount released.
    pub fn release_escrow(&mut self, sid: SettlementId, acct: Account, asset: &String, to: Account) -> (r: Amount)
        requires
            old(self).wf(),
        ensures
            final(self).wf(),
            r == old(self).escrowed(sid, acct, asset@),
            final(self).moved(old(self), asset@, Holder::Escrowed(sid, acct), -r, Holder::Free(to), r as int),
            final(self).escrowed(sid, acct, asset@) == 0,
            final(self).same_flows(old(self)),
    {
        let amount = self.balance_of(Holder::Escrowed(sid, acct), asset);
        self.transfer(Holder::Escrowed(sid, acct), Holder::Free(to), asset, amount);
        amount
    }

    proof fn lemma_kinds(s: Seq<BalanceEntry>, a: Seq<char>)
        ensures
            sum(asset_terms(s, a)) == sum(kind_terms(s, a, 0)) + sum(kind_terms(s, a, 1)) + sum(
                kind_terms(s, a, 2),
            ) + sum(kind_terms(s, a, 3)),
        decreases s.len(),
    {
        if s.len() > 0 {
            let t = s.drop_last();
            Self::lemma_kinds(t, a);
            assert(asset_terms(s, a).drop_last() =~= asset_terms(t, a));
            assert(kind_terms(s, a, 0).drop_last() =~= kind_terms(t, a, 0));
            assert(kind_terms(s, a, 1).drop_last() =~= kind_terms(t, a, 1));
            assert(kind_terms(s, a, 2).drop_last() =~= kind_terms(t, a, 2));
            assert(kind_terms(s, a, 3).drop_last() =~= kind_terms(t, a, 3));
        }
    }

    /// Conservation: for every asset, all free balances, all locked balances, all
    /// escrows and the collected fees together are what came in from outside minus
    /// what went out.
    pub proof fn lemma_conservation(&self, a: Seq<char>)
        requires
            self.wf(),
        ensures
            self.kind_total(a, 0) + self.kind_total(a, 1) + self.kind_total(a, 2) + self.kind_total(a, 3)
                == self.deposits(a) - self.withdrawals(a),
    {
        Self::lemma_kinds(self.entries@, a);
        assert(self.supply(a) == self.deposits(a) - self.withdrawals(a));
    }

    /// Pays `amount` of `asset` out of the escrow of `acct` for settlement `sid`
    /// into the free balance of `to`.
    pub fn pay_escrow(&mut self, sid: SettlementId, acct: Account, asset: &String, amount: Amount, to: Account)
        requires
            old(self).wf(),
            old(self).escrowed(sid, acct, asset@) >= amount,
        ensures
            final(self).wf(),
            final(self).moved(old(self), asset@, Holder::Escrowed(sid, acct), -amount, Holder::Free(to), amount as int),
            final(self).same_flows(old(self)),
    {
        self.transfer(Holder::Escrowed(sid, acct), Holder::Free(to), asset, amount);
    }

    /// The supply of an asset is what came in minus what went out.
    pub proof fn lemma_supply(&self, a: Seq<char>)
        requires
            self.wf(),
        ensures
            self.supply(a) == self.deposits(a) - self.withdrawals(a),
            self.supply(a) <= u128::MAX,
    {
    }

    /// Two balances of different holders in one asset together are at most its supply.
    pub proof fn lemma_two_balances(&self, h1: Holder, h2: Holder, a: Seq<char>)
        requires
            h1 != h2,
        ensures
            self.balance(h1, a) + self.balance(h2, a) <= self.supply(a),
    {
        let s = self.entries@;
        let t1 = holder_terms(s, h1, a);
        let t2 = holder_terms(s, h2, a);
        let both = s.map_values(|e: BalanceEntry| holder_term(e, h1, a) + holder_term(e, h2, a));
        Self::lemma_nonneg(s, h1, a);
        Self::lemma_sum_pointwise(t1, t2, both);
        lemma_sum_le(both, asset_terms(s, a));
    }

    proof fn lemma_sum_pointwise(t1: Seq<int>, t2: Seq<int>, both: Seq<int>)
        requires
            t1.len() == t2.len() && t2.len() == both.len(),
            forall|i: int| 0 <= i < both.len() ==> #[trigger] both[i] == t1[i] + t2[i],
        ensures
            sum(both) == sum(t1) + sum(t2),
        decreases both.len(),
    {
        if both.len() > 0 {
            Self::lemma_sum_pointwise(t1.drop_last(), t2.drop_last(), both.drop_last());
        }
    }
}

} // verus!
