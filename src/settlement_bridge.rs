//! The settlement engine's own bridge bookkeeping: deposits that relayers
//! report from external chains are credited to the settlement ledger, and
//! withdrawals leave it until the relayer reports how they ended.
use crate::ledger::{delta, Holder, LedgerError};
use crate::settlement::{SettlementContract, SettlementError, SettlementState};
use crate::types::{Account, Amount, SettlementId, Timestamp};
use vstd::prelude::*;

verus! {

/// How the settlement engine reaches one external chain.
#[derive(Debug)]
pub struct BridgeConfig {
    pub chain_id: String,
    pub chain_name: String,
    pub bridge_address: String,
    pub confirmation_blocks: u64,
    pub min_amount: Amount,
    pub max_amount: Amount,
    pub fee_rate_bps: u64,
    pub is_active: bool,
    pub supported_assets: Vec<String>,
}

#[derive(Clone, Copy, Debug, PartialEq, Eq, Structural)]
pub enum BridgeDirection {
    Deposit,
    Withdrawal,
}

#[derive(Clone, Copy, Debug, PartialEq, Eq, Structural)]
pub enum BridgeTransferStatus {
    Pending,
    Confirming,
    Completed,
    Failed,
    Refunded,
}

#[derive(Debug)]
pub struct BridgeTransfer {
    pub id: u64,
    pub chain_id: String,
    pub user: Account,
    pub asset: String,
    pub amount: Amount,
    pub direction: BridgeDirection,
    pub status: BridgeTransferStatus,
    pub tx_hash: Option<String>,
    pub destination_address: Option<String>,
    pub created_at: Timestamp,
    pub completed_at: Option<Timestamp>,
    pub confirmations: u64,
}

/// Position `i` holds the first configuration of chain `id`.
pub open spec fn config_at(s: Seq<BridgeConfig>, id: Seq<char>, i: int) -> bool {
    &&& 0 <= i < s.len()
    &&& s[i].chain_id@ == id
    &&& forall|j: int| 0 <= j < i ==> (#[trigger] s[j]).chain_id@ != id
}

pub open spec fn has_bridge(s: Seq<BridgeConfig>, id: Seq<char>) -> bool {
    exists|i: int| config_at(s, id, i)
}

/// The configuration of chain `id`; meaningful where `has_bridge`.
pub open spec fn bridge_cfg(s: Seq<BridgeConfig>, id: Seq<char>) -> BridgeConfig {
    s[choose|i: int| config_at(s, id, i)]
}

pub open spec fn lists_asset(c: BridgeConfig, a: Seq<char>) -> bool {
    exists|i: int| 0 <= i < c.supported_assets@.len() && (#[trigger] c.supported_assets@[i])@ == a
}

/// The bridge fee on `amount` at `bps` basis points.
pub open spec fn bridge_fee(amount: Amount, bps: u64) -> int {
    (amount * bps) / 10000
}

impl SettlementState {
    /// Some bridge deposit was recorded for transaction `h`.
    pub open spec fn deposit_seen(&self, h: Seq<char>) -> bool {
        exists|i: int|
            0 <= i < self.bridge_transfers@.len() && (#[trigger] self.bridge_transfers@[i]).direction
                == BridgeDirection::Deposit && self.bridge_transfers@[i].tx_hash is Some
                && self.bridge_transfers@[i].tx_hash->Some_0@ == h
    }

    pub open spec fn bridge_ok(&self) -> bool {
        &&& self.next_transfer_id == self.bridge_transfers@.len() + 1
        &&& forall|i: int| 0 <= i < self.bridge_transfers@.len() ==> #[trigger] self.bridge_transfers@[i].id == i + 1
    }
}

proof fn lemma_config_at_unique(s: Seq<BridgeConfig>, id: Seq<char>, i: int)
    requires
        config_at(s, id, i),
    ensures
        has_bridge(s, id),
        bridge_cfg(s, id) == s[i],
{
    let j = choose|j: int| config_at(s, id, j);
    if j < i {
        assert(s[j].chain_id@ != id);
    } else if j > i {
        assert(s[i].chain_id@ != id);
    }
}

/// `s2` is `s` with position `i` replaced by an entry of the same chain id.
proof fn lemma_configs_replaced(s: Seq<BridgeConfig>, s2: Seq<BridgeConfig>, i: int)
    requires
        0 <= i < s.len(),
        s2 == s.update(i, s2[i]),
        s2[i].chain_id@ == s[i].chain_id@,
    ensures
        forall|k: Seq<char>, j: int| #[trigger] config_at(s2, k, j) == config_at(s, k, j),
{
    assert forall|k: Seq<char>, j: int| #[trigger] config_at(s2, k, j) == config_at(s, k, j) by {
        if config_at(s, k, j) {
            assert forall|m: int| 0 <= m < j implies (#[trigger] s2[m]).chain_id@ != k by {
                assert(s[m].chain_id@ != k);
            }
        }
        if config_at(s2, k, j) {
            assert forall|m: int| 0 <= m < j implies (#[trigger] s[m]).chain_id@ != k by {
                assert(s2[m].chain_id@ != k);
            }
        }
    }
}

/// The index at which the bridge transfer with id `id` stands.
fn transfer_slot(id: u64, len: usize) -> (r: usize)
    requires
        1 <= id <= len,
    ensures
        r == id - 1,
{
    (id - 1) as usize
}

fn find_config(configs: &Vec<BridgeConfig>, id: &String) -> (r: Option<usize>)
    ensures
        match r {
            Some(i) => config_at(configs@, id@, i as int) && has_bridge(configs@, id@) && bridge_cfg(configs@, id@) == configs@[i as int],
            None => !has_bridge(configs@, id@),
        },
{
    let mut i: usize = 0;
    while i < configs.len()
        invariant
            i <= configs@.len(),
            forall|j: int| 0 <= j < i ==> (#[trigger] configs@[j]).chain_id@ != id@,
        decreases configs@.len() - i,
    {
        if configs[i].chain_id == *id {
            proof {
                lemma_config_at_unique(configs@, id@, i as int);
            }
            return Some(i);
        }
        i = i + 1;
    }
    proof {
        if has_bridge(configs@, id@) {
            let j = choose|j: int| config_at(configs@, id@, j);
            assert(configs@[j].chain_id@ != id@);
        }
    }
    None
}

fn lists_asset_exec(c: &BridgeConfig, asset: &String) -> (r: bool)
    ensures
        r == lists_asset(*c, asset@),
{
    let mut i: usize = 0;
    while i < c.supported_assets.len()
        invariant
            i <= c.supported_assets@.len(),
            forall|j: int| 0 <= j < i ==> (#[trigger] c.supported_assets@[j])@ != asset@,
        decreases c.supported_assets@.len() - i,
    {
        if c.supported_assets[i] == *asset {
            return true;
        }
        i = i + 1;
    }
    false
}

fn deposit_seen_exec(st: &SettlementState, h: &String) -> (r: bool)
    ensures
        r == st.deposit_seen(h@),
{
    let mut i: usize = 0;
    while i < st.bridge_transfers.len()
        invariant
            i <= st.bridge_transfers@.len(),
            forall|j: int| 0 <= j < i ==> !((#[trigger] st.bridge_transfers@[j]).direction == BridgeDirection::Deposit
                && st.bridge_transfers@[j].tx_hash is Some && st.bridge_transfers@[j].tx_hash->Some_0@ == h@),
        decreases st.bridge_transfers@.len() - i,
    {
        if st.bridge_transfers[i].direction == BridgeDirection::Deposit {
            match &st.bridge_transfers[i].tx_hash {
                Some(x) => {
                    if *x == *h {
                        return true;
                    }
                },
                None => {},
            }
        }
        i = i + 1;
    }
    false
}

impl SettlementContract {
    /// Sets the bridge configuration of chain `chain_id`, replacing an earlier one.
    pub fn configure_bridge(&mut self, chain_id: String, config: BridgeConfig)
        requires
            old(self).state.wf(),
        ensures
            final(self).state.wf(),
            has_bridge(final(self).state.bridge_configs@, chain_id@),
            bridge_cfg(final(self).state.bridge_configs@, chain_id@) == (BridgeConfig { chain_id, ..config }),
            forall|k: Seq<char>| k != chain_id@ ==> #[trigger] has_bridge(final(self).state.bridge_configs@, k)
                == has_bridge(old(self).state.bridge_configs@, k) && (has_bridge(old(self).state.bridge_configs@, k)
                ==> bridge_cfg(final(self).state.bridge_configs@, k) == bridge_cfg(old(self).state.bridge_configs@, k)),
            final(self).state.ledger == old(self).state.ledger,
            final(self).state.settlements@ == old(self).state.settlements@,
    {
        let ghost s = self.state.bridge_configs@;
        let ghost key = chain_id@;
        let found = find_config(&self.state.bridge_configs, &chain_id);
        let c = BridgeConfig { chain_id, ..config };
        let ghost cg = c;
        match found {
            Some(i) => {
                self.state.bridge_configs.set(i, c);
                proof {
                    let s2 = self.state.bridge_configs@;
                    lemma_configs_replaced(s, s2, i as int);
                    lemma_config_at_unique(s2, key, i as int);
                    assert forall|k: Seq<char>| k != key implies #[trigger] has_bridge(s2, k) == has_bridge(s, k)
                        && (has_bridge(s, k) ==> bridge_cfg(s2, k) == bridge_cfg(s, k)) by {
                        if has_bridge(s, k) {
                            let j = choose|j: int| config_at(s, k, j);
                            assert(config_at(s2, k, j));
                            lemma_config_at_unique(s, k, j);
                            lemma_config_at_unique(s2, k, j);
                            assert(j != i);
                        }
                        if has_bridge(s2, k) {
                            let j = choose|j: int| config_at(s2, k, j);
                            assert(config_at(s, k, j));
                        }
                    }
                }
            },
            None => {
                self.state.bridge_configs.push(c);
                proof {
                    assert(self.state.bridge_configs@ =~= s.push(cg));
                    lemma_configs_pushed(s, cg);
                }
            },
        }
    }
}

impl SettlementContract {
    /// Disables the bridge of chain `chain_id`.
    pub fn disable_bridge(&mut self, chain_id: String) -> (r: Result<(), SettlementError>)
        requires
            old(self).state.wf(),
        ensures
            final(self).state.wf(),
            r is Err <==> !has_bridge(old(self).state.bridge_configs@, chain_id@),
            r is Err ==> r == Err::<(), SettlementError>(SettlementError::BridgeNotConfigured) && final(self).state.same_as(&old(self).state),
            r is Ok ==> !bridge_cfg(final(self).state.bridge_configs@, chain_id@).is_active
                && has_bridge(final(self).state.bridge_configs@, chain_id@)
                && forall|k: Seq<char>| #[trigger] has_bridge(final(self).state.bridge_configs@, k) == has_bridge(old(self).state.bridge_configs@, k),
            final(self).state.ledger == old(self).state.ledger,
            final(self).state.settlements@ == old(self).state.settlements@,
    {
        let ghost s = self.state.bridge_configs@;
        match find_config(&self.state.bridge_configs, &chain_id) {
            Some(i) => {
                let mut c = self.state.bridge_configs.remove(i);
                c.is_active = false;
                self.state.bridge_configs.insert(i, c);
                proof {
                    let s2 = self.state.bridge_configs@;
                    assert(s2 =~= s.update(i as int, s2[i as int]));
                    lemma_configs_replaced(s, s2, i as int);
                    lemma_config_at_unique(s2, chain_id@, i as int);
                    assert forall|k: Seq<char>| #[trigger] has_bridge(s2, k) == has_bridge(s, k) by {
                        if has_bridge(s, k) {
                            let j = choose|j: int| config_at(s, k, j);
                            assert(config_at(s2, k, j));
                        }
                        if has_bridge(s2, k) {
                            let j = choose|j: int| config_at(s2, k, j);
                            assert(config_at(s, k, j));
                        }
                    }
                }
                Ok(())
            },
            None => Err(SettlementError::BridgeNotConfigured),
        }
    }

    /// What `process_bridge_deposit` returns.
    pub open spec fn bridge_deposit_outcome(&self, chain_id: Seq<char>, tx_hash: Seq<char>, asset: Seq<char>, amount: Amount, confirmations: u64) -> Result<u64, SettlementError> {
        let st = self.state;
        if !has_bridge(st.bridge_configs@, chain_id) {
            Err(SettlementError::BridgeNotConfigured)
        } else {
            let c = bridge_cfg(st.bridge_configs@, chain_id);
            if !c.is_active {
                Err(SettlementError::BridgeDisabled)
            } else if !lists_asset(c, asset) {
                Err(SettlementError::AssetNotSupported)
            } else if amount < c.min_amount {
                Err(SettlementError::BelowMinimum { amount, minimum: c.min_amount })
            } else if amount > c.max_amount {
                Err(SettlementError::AboveMaximum { amount, maximum: c.max_amount })
            } else if st.deposit_seen(tx_hash) {
                Err(SettlementError::DepositAlreadyProcessed)
            } else if amount * c.fee_rate_bps > u128::MAX {
                Err(SettlementError::Overflow)
            } else if confirmations >= c.confirmation_blocks && st.ledger.supply(asset) + amount > u128::MAX {
                Err(SettlementError::Overflow)
            } else {
                Ok(st.next_transfer_id)
            }
        }
    }

    /// `self` is `prev` after bridge deposit `id` of transaction `tx_hash` was recorded at `now`.
    pub open spec fn bridge_deposit_recorded(&self, prev: &Self, id: u64, now: Timestamp, chain_id: Seq<char>, tx_hash: String, user: Account, asset: Seq<char>, amount: Amount, confirmations: u64) -> bool {
        let c = bridge_cfg(prev.state.bridge_configs@, chain_id);
        let fee = bridge_fee(amount, c.fee_rate_bps);
        let credited = if fee > amount { 0 } else { amount - fee };
        let t = self.state.bridge_transfers@.last();
        &&& self.state.bridge_transfers@.len() == prev.state.bridge_transfers@.len() + 1
        &&& self.state.bridge_transfers@.drop_last() == prev.state.bridge_transfers@
        &&& id == prev.state.next_transfer_id && t.id == id
        &&& self.state.next_transfer_id == id + 1
        &&& t.direction == BridgeDirection::Deposit
        &&& t.user == user
        &&& t.amount == amount
        &&& t.tx_hash == Some(tx_hash)
        &&& self.state.settlements@ == prev.state.settlements@
        &&& if confirmations >= c.confirmation_blocks {
            &&& t.status == BridgeTransferStatus::Completed
            &&& self.state.ledger.moved(&prev.state.ledger, asset, Holder::Free(user), credited, Holder::Fees, amount - credited)
            &&& self.state.ledger.flows(&prev.state.ledger, asset, amount as int, 0)
        } else {
            &&& t.status == BridgeTransferStatus::Confirming
            &&& self.state.ledger == prev.state.ledger
        }
    }

    /// Records a deposit that a relayer saw on chain `chain_id`. With enough
    /// confirmations the user is credited the amount less the bridge fee, and
    /// the fee goes to the collected fees.
    /// A transaction is accepted once only. Returns the transfer's id.
    pub fn process_bridge_deposit(
        &mut self,
        now: Timestamp,
        chain_id: String,
        tx_hash: String,
        user: Account,
        asset: String,
        amount: Amount,
        confirmations: u64,
    ) -> (r: Result<u64, SettlementError>)
        requires
            old(self).state.wf(),
            old(self).state.bridge_transfers@.len() + 1 < u64::MAX,
        ensures
            final(self).state.wf(),
            r == old(self).bridge_deposit_outcome(chain_id@, tx_hash@, asset@, amount, confirmations),
            r is Err ==> final(self).state.same_as(&old(self).state),
            r is Ok ==> final(self).bridge_deposit_recorded(old(self), r->Ok_0, now, chain_id@, tx_hash, user, asset@, amount, confirmations),
    {
        let ci = match find_config(&self.state.bridge_configs, &chain_id) {
            Some(i) => i,
            None => {
                return Err(SettlementError::BridgeNotConfigured);
            },
        };
        let c = &self.state.bridge_configs[ci];
        if !c.is_active {
            return Err(SettlementError::BridgeDisabled);
        }
        if !lists_asset_exec(c, &asset) {
            return Err(SettlementError::AssetNotSupported);
        }
        if amount < c.min_amount {
            return Err(SettlementError::BelowMinimum { amount, minimum: c.min_amount });
        }
        if amount > c.max_amount {
            return Err(SettlementError::AboveMaximum { amount, maximum: c.max_amount });
        }
        if deposit_seen_exec(&self.state, &tx_hash) {
            return Err(SettlementError::DepositAlreadyProcessed);
        }
        let fee = match amount.checked_mul(c.fee_rate_bps as u128) {
            Some(p) => p / 10000,
            None => {
                return Err(SettlementError::Overflow);
            },
        };
        let confirmed = confirmations >= c.confirmation_blocks;
        let credited = amount.saturating_sub(fee);
        if confirmed {
            let supply = self.state.ledger.supply_of(&asset);
            if supply > u128::MAX - amount {
                return Err(SettlementError::Overflow);
            }
        }
        let ghost old_state = self.state;
        if confirmed {
            match self.state.ledger.credit(user, &asset, credited) {
                Ok(()) => {},
                Err(_) => {
                    return Err(SettlementError::Overflow);
                },
            }
            let ghost l1 = self.state.ledger;
            match self.state.ledger.credit_fees(&asset, amount - credited) {
                Ok(()) => {},
                Err(_) => {
                    proof {
                        l1.lemma_supply(asset@);
                        old_state.ledger.lemma_supply(asset@);
                    }
                    return Err(SettlementError::Overflow);
                },
            }
            proof {
                assert forall|h: Holder, b: Seq<char>| #[trigger] self.state.ledger.balance(h, b)
                    == old_state.ledger.balance(h, b) + delta(h, b, Holder::Free(user), asset@, credited as int)
                    + delta(h, b, Holder::Fees, asset@, (amount - credited) as int) by {
                    assert(l1.balance(h, b) == old_state.ledger.balance(h, b) + delta(h, b, Holder::Free(user), asset@, credited as int));
                }
                assert forall|b: Seq<char>| #[trigger] self.state.ledger.deposits(b)
                    == old_state.ledger.deposits(b) + if b == asset@ { amount as int } else { 0 } by {
                    assert(l1.deposits(b) == old_state.ledger.deposits(b) + if b == asset@ { credited as int } else { 0 });
                }
                assert forall|b: Seq<char>| #[trigger] self.state.ledger.withdrawals(b) == old_state.ledger.withdrawals(b) by {
                    assert(l1.withdrawals(b) == old_state.ledger.withdrawals(b));
                }
            }
            proof {
                let st = self.state;
                assert forall|k: SettlementId, acct: Account, a: Seq<char>| #[trigger]
                    st.ledger.balance(Holder::Escrowed(k, acct), a) == st.escrow_expected(k as int, acct, a) by {
                    assert(old_state.ledger.balance(Holder::Escrowed(k, acct), a) == old_state.escrow_expected(k as int, acct, a));
                }
            }
        }
        let id = self.state.next_transfer_id;
        let t = BridgeTransfer {
            id,
            chain_id,
            user,
            asset,
            amount,
            direction: BridgeDirection::Deposit,
            status: if confirmed { BridgeTransferStatus::Completed } else { BridgeTransferStatus::Confirming },
            tx_hash: Some(tx_hash),
            destination_address: None,
            created_at: now,
            completed_at: if confirmed { Some(now) } else { None },
            confirmations,
        };
        self.state.bridge_transfers.push(t);
        self.state.next_transfer_id = id + 1;
        proof {
            let st = self.state;
            assert(st.bridge_transfers@.drop_last() =~= old_state.bridge_transfers@);
            assert forall|i: int| 0 <= i < st.bridge_transfers@.len() implies #[trigger] st.bridge_transfers@[i].id == i + 1 by {
                if i < old_state.bridge_transfers@.len() {
                    assert(st.bridge_transfers@[i] == old_state.bridge_transfers@[i]);
                }
            }
        }
        Ok(id)
    }

    /// What `initiate_bridge_withdrawal` returns.
    pub open spec fn bridge_withdrawal_outcome(&self, caller: Account, chain_id: Seq<char>, asset: Seq<char>, amount: Amount) -> Result<u64, SettlementError> {
        let st = self.state;
        if !has_bridge(st.bridge_configs@, chain_id) {
            Err(SettlementError::BridgeNotConfigured)
        } else {
            let c = bridge_cfg(st.bridge_configs@, chain_id);
            if !c.is_active {
                Err(SettlementError::BridgeDisabled)
            } else if !lists_asset(c, asset) {
                Err(SettlementError::AssetNotSupported)
            } else if amount < c.min_amount {
                Err(SettlementError::BelowMinimum { amount, minimum: c.min_amount })
            } else if amount > c.max_amount {
                Err(SettlementError::AboveMaximum { amount, maximum: c.max_amount })
            } else if st.ledger.free(caller, asset) < amount {
                Err(SettlementError::InsufficientBalance { required: amount, available: st.ledger.free(caller, asset) as u128 })
            } else {
                Ok(st.next_transfer_id)
            }
        }
    }

    /// `self` is `prev` after bridge withdrawal `id` of `caller` was started.
    pub open spec fn bridge_withdrawal_started(&self, prev: &Self, id: u64, caller: Account, asset: Seq<char>, amount: Amount) -> bool {
        let t = self.state.bridge_transfers@.last();
        &&& self.state.bridge_transfers@.len() == prev.state.bridge_transfers@.len() + 1
        &&& self.state.bridge_transfers@.drop_last() == prev.state.bridge_transfers@
        &&& id == prev.state.next_transfer_id && t.id == id
        &&& self.state.next_transfer_id == id + 1
        &&& t.direction == BridgeDirection::Withdrawal
        &&& t.status == BridgeTransferStatus::Pending
        &&& t.user == caller
        &&& t.asset@ == asset
        &&& t.amount == amount
        &&& self.state.settlements@ == prev.state.settlements@
        &&& self.state.ledger.changed(&prev.state.ledger, asset, Holder::Free(caller), -amount)
        &&& self.state.ledger.flows(&prev.state.ledger, asset, 0, amount as int)
    }

    /// Starts a withdrawal to `destination_address` on chain `chain_id`: the
    /// amount leaves the caller's free balance until the relayer reports the
    /// outcome. Returns the transfer's id.
    pub fn initiate_bridge_withdrawal(
        &mut self,
        caller: Account,
        now: Timestamp,
        chain_id: String,
        asset: String,
        amount: Amount,
        destination_address: String,
    ) -> (r: Result<u64, SettlementError>)
        requires
            old(self).state.wf(),
            old(self).state.bridge_transfers@.len() + 1 < u64::MAX,
        ensures
            final(self).state.wf(),
            r == old(self).bridge_withdrawal_outcome(caller, chain_id@, asset@, amount),
            r is Err ==> final(self).state.same_as(&old(self).state),
            r is Ok ==> final(self).bridge_withdrawal_started(old(self), r->Ok_0, caller, asset@, amount),
    {
        let ci = match find_config(&self.state.bridge_configs, &chain_id) {
            Some(i) => i,
            None => {
                return Err(SettlementError::BridgeNotConfigured);
            },
        };
        let c = &self.state.bridge_configs[ci];
        if !c.is_active {
            return Err(SettlementError::BridgeDisabled);
        }
        if !lists_asset_exec(c, &asset) {
            return Err(SettlementError::AssetNotSupported);
        }
        if amount < c.min_amount {
            return Err(SettlementError::BelowMinimum { amount, minimum: c.min_amount });
        }
        if amount > c.max_amount {
            return Err(SettlementError::AboveMaximum { amount, maximum: c.max_amount });
        }
        let ghost old_state = self.state;
        match self.state.ledger.debit(caller, &asset, amount) {
            Ok(()) => {},
            Err(LedgerError::InsufficientBalance { required, available }) => {
                return Err(SettlementError::InsufficientBalance { required, available });
            },
            Err(LedgerError::Overflow) => {
                return Err(SettlementError::Overflow);
            },
        }
        proof {
            let st = self.state;
            assert forall|k: SettlementId, acct: Account, a: Seq<char>| #[trigger]
                st.ledger.balance(Holder::Escrowed(k, acct), a) == st.escrow_expected(k as int, acct, a) by {
                assert(old_state.ledger.balance(Holder::Escrowed(k, acct), a) == old_state.escrow_expected(k as int, acct, a));
            }
        }
        let id = self.state.next_transfer_id;
        let t = BridgeTransfer {
            id,
            chain_id,
            user: caller,
            asset,
            amount,
            direction: BridgeDirection::Withdrawal,
            status: BridgeTransferStatus::Pending,
            tx_hash: None,
            destination_address: Some(destination_address),
            created_at: now,
            completed_at: None,
            confirmations: 0,
        };
        self.state.bridge_transfers.push(t);
        self.state.next_transfer_id = id + 1;
        proof {
            let st = self.state;
            assert(st.bridge_transfers@.drop_last() =~= old_state.bridge_transfers@);
            assert forall|i: int| 0 <= i < st.bridge_transfers@.len() implies #[trigger] st.bridge_transfers@[i].id == i + 1 by {
                if i < old_state.bridge_transfers@.len() {
                    assert(st.bridge_transfers@[i] == old_state.bridge_transfers@[i]);
                }
            }
        }
        Ok(id)
    }

    /// What `complete_bridge_withdrawal` returns.
    pub open spec fn bridge_completion_outcome(&self, transfer_id: u64, success: bool) -> Result<(), SettlementError> {
        let st = self.state;
        if !(1 <= transfer_id <= st.bridge_transfers@.len()) {
            Err(SettlementError::TransferNotFound { transfer_id })
        } else {
            let t = st.bridge_transfers@[transfer_id - 1];
            if t.direction != BridgeDirection::Withdrawal || t.status != BridgeTransferStatus::Pending {
                Err(SettlementError::TransferNotPending)
            } else if !success && st.ledger.supply(t.asset@) + t.amount > u128::MAX {
                Err(SettlementError::Overflow)
            } else {
                Ok(())
            }
        }
    }

    /// `self` is `prev` after the relayer reported how bridge withdrawal `transfer_id` ended.
    pub open spec fn bridge_withdrawal_ended(&self, prev: &Self, now: Timestamp, transfer_id: u64, tx_hash: String, success: bool) -> bool {
        let t = prev.state.bridge_transfers@[transfer_id - 1];
        let t2 = self.state.bridge_transfers@[transfer_id - 1];
        &&& self.state.bridge_transfers@ == prev.state.bridge_transfers@.update(transfer_id - 1, t2)
        &&& self.state.settlements@ == prev.state.settlements@
        &&& if success {
            &&& t2.status == BridgeTransferStatus::Completed
            &&& t2.tx_hash == Some(tx_hash)
            &&& t2.completed_at == Some(now)
            &&& self.state.ledger == prev.state.ledger
        } else {
            &&& t2.status == BridgeTransferStatus::Failed
            &&& self.state.ledger.changed(&prev.state.ledger, t.asset@, Holder::Free(t.user), t.amount as int)
            &&& self.state.ledger.flows(&prev.state.ledger, t.asset@, t.amount as int, 0)
        }
    }

    /// Records how a pending withdrawal ended: on success it completes with the
    /// destination transaction; on failure the user gets the amount back.
    pub fn complete_bridge_withdrawal(&mut self, now: Timestamp, transfer_id: u64, tx_hash: String, success: bool) -> (r: Result<(), SettlementError>)
        requires
            old(self).state.wf(),
        ensures
            final(self).state.wf(),
            r == old(self).bridge_completion_outcome(transfer_id, success),
            r is Err ==> final(self).state.same_as(&old(self).state),
            r is Ok ==> final(self).bridge_withdrawal_ended(old(self), now, transfer_id, tx_hash, success),
    {
        if transfer_id == 0 || transfer_id >= self.state.next_transfer_id {
            return Err(SettlementError::TransferNotFound { transfer_id });
        }
        let idx = transfer_slot(transfer_id, self.state.bridge_transfers.len());
        if self.state.bridge_transfers[idx].direction != BridgeDirection::Withdrawal
            || self.state.bridge_transfers[idx].status != BridgeTransferStatus::Pending {
            return Err(SettlementError::TransferNotPending);
        }
        let ghost old_state = self.state;
        let mut t = self.state.bridge_transfers.remove(idx);
        if success {
            t.status = BridgeTransferStatus::Completed;
            t.tx_hash = Some(tx_hash);
            t.completed_at = Some(now);
        } else {
            match self.state.ledger.credit(t.user, &t.asset, t.amount) {
                Ok(()) => {},
                Err(_) => {
                    self.state.bridge_transfers.insert(idx, t);
                    proof {
                        assert(self.state.bridge_transfers@ =~= old_state.bridge_transfers@);
                    }
                    return Err(SettlementError::Overflow);
                },
            }
            t.status = BridgeTransferStatus::Failed;
            proof {
                let st = self.state;
                assert forall|k: SettlementId, acct: Account, a: Seq<char>| #[trigger]
                    st.ledger.balance(Holder::Escrowed(k, acct), a) == st.escrow_expected(k as int, acct, a) by {
                    assert(old_state.ledger.balance(Holder::Escrowed(k, acct), a) == old_state.escrow_expected(k as int, acct, a));
                }
            }
        }
        self.state.bridge_transfers.insert(idx, t);
        proof {
            let st = self.state;
            assert(st.bridge_transfers@ =~= old_state.bridge_transfers@.update(idx as int, st.bridge_transfers@[idx as int]));
            assert forall|i: int| 0 <= i < st.bridge_transfers@.len() implies #[trigger] st.bridge_transfers@[i].id == i + 1 by {
                assert(old_state.bridge_transfers@[i].id == i + 1);
            }
        }
        Ok(())
    }
}

proof fn lemma_configs_pushed(s: Seq<BridgeConfig>, c: BridgeConfig)
    requires
        !has_bridge(s, c.chain_id@),
    ensures
        has_bridge(s.push(c), c.chain_id@),
        bridge_cfg(s.push(c), c.chain_id@) == c,
        forall|k: Seq<char>| k != c.chain_id@ ==> #[trigger] has_bridge(s.push(c), k) == has_bridge(s, k)
            && (has_bridge(s, k) ==> bridge_cfg(s.push(c), k) == bridge_cfg(s, k)),
{
    let s2 = s.push(c);
    let key = c.chain_id@;
    assert forall|j: int| 0 <= j < s.len() implies (#[trigger] s2[j]).chain_id@ != key by {
        if s[j].chain_id@ == key {
            lemma_first_match(s, key, j);
        }
    }
    assert(config_at(s2, key, s.len() as int));
    lemma_config_at_unique(s2, key, s.len() as int);
    assert forall|k: Seq<char>| k != key implies #[trigger] has_bridge(s2, k) == has_bridge(s, k)
        && (has_bridge(s, k) ==> bridge_cfg(s2, k) == bridge_cfg(s, k)) by {
        if has_bridge(s, k) {
            let j = choose|j: int| config_at(s, k, j);
            assert forall|m: int| 0 <= m < j implies (#[trigger] s2[m]).chain_id@ != k by {
                assert(s2[m] == s[m]);
            }
            assert(config_at(s2, k, j));
            lemma_config_at_unique(s, k, j);
            lemma_config_at_unique(s2, k, j);
        }
        if has_bridge(s2, k) {
            let j = choose|j: int| config_at(s2, k, j);
            if j == s.len() {
                assert(s2[j].chain_id@ == key);
            }
            assert forall|m: int| 0 <= m < j implies (#[trigger] s[m]).chain_id@ != k by {
                assert(s2[m] == s[m]);
            }
            assert(config_at(s, k, j));
        }
    }
}

/// A chain id that occurs in `s` has a first occurrence.
proof fn lemma_first_match(s: Seq<BridgeConfig>, id: Seq<char>, j: int)
    requires
        0 <= j < s.len(),
        s[j].chain_id@ == id,
    ensures
        has_bridge(s, id),
    decreases j,
{
    if forall|m: int| 0 <= m < j ==> (#[trigger] s[m]).chain_id@ != id {
        assert(config_at(s, id, j));
    } else {
        let m = choose|m: int| 0 <= m < j && (#[trigger] s[m]).chain_id@ == id;
        lemma_first_match(s, id, m);
    }
}

} // verus!
