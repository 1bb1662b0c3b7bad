//! The settlement engine: two-party atomic swaps with escrow, timeouts and refunds.
//!
//! A settlement moves from `Pending` through `MakerEscrowed` or `TakerEscrowed` to
//! `FullyEscrowed`, and is executed in the same operation that escrows its second
//! side: each party's escrow is paid to the other, and it ends `Completed`. Before
//! that it may be cancelled, or expire, and the escrows go back to their owners.
use crate::ledger::{delta, tdelta, BalanceLedger, Holder, LedgerError};
use crate::settlement_bridge::{bridge_cfg, has_bridge, BridgeConfig, BridgeTransfer};
use crate::types::{deadline, spec_deadline, Account, Amount, SettlementId, Timestamp, TradeId};
use vstd::prelude::*;

verus! {

#[derive(Clone, Copy, Debug, PartialEq, Eq, Structural)]
pub enum SettlementStatus {
    /// Created, waiting for escrow.
    Pending,
    /// The maker has escrowed its side.
    MakerEscrowed,
    /// The taker has escrowed its side.
    TakerEscrowed,
    /// Both sides are escrowed: ready to execute.
    FullyEscrowed,
    /// Being executed.
    Executing,
    /// Both sides were paid out to the counterparties.
    Completed,
    /// Execution failed; the escrows are left for claims.
    Failed,
    /// Every escrow went back to its owner.
    Refunded,
    /// Expired before completion.
    Expired,
    /// Cancelled by a participant.
    Cancelled,
}

/// The escrow of one party of a settlement.
#[derive(Debug)]
pub struct EscrowState {
    pub is_escrowed: bool,
    pub amount: Amount,
    pub asset: String,
    pub escrowed_at: Option<Timestamp>,
}

impl Default for EscrowState {
    fn default() -> (r: EscrowState)
        ensures
            !r.is_escrowed,
            r.amount == 0,
            r.asset@ == Seq::<char>::empty(),
            r.escrowed_at is None,
    {
        EscrowState { is_escrowed: false, amount: 0, asset: String::new(), escrowed_at: None }
    }
}

#[derive(Debug)]
pub struct Settlement {
    pub id: SettlementId,
    pub trade_id: TradeId,
    pub maker: Account,
    pub taker: Account,
    pub maker_asset: String,
    pub taker_asset: String,
    pub maker_amount: Amount,
    pub taker_amount: Amount,
    pub maker_escrow: EscrowState,
    pub taker_escrow: EscrowState,
    pub status: SettlementStatus,
    pub created_at: Timestamp,
    pub expires_at: Timestamp,
    pub completed_at: Option<Timestamp>,
    pub failure_reason: Option<String>,
    pub retry_count: u32,
}

#[derive(Clone, Copy, Debug, PartialEq, Eq, Structural)]
pub enum SettlementError {
    SettlementNotFound { settlement_id: SettlementId },
    InvalidStatus { expected: SettlementStatus, actual: SettlementStatus },
    SettlementExpired { expired_at: Timestamp },
    /// The caller is not a party to the settlement.
    Unauthorized,
    InsufficientBalance { required: Amount, available: Amount },
    AlreadyEscrowed,
    /// The settlement cannot be cancelled, or refunded, in its status.
    CannotCancel { status: SettlementStatus },
    /// A balance would no longer fit in an `Amount`.
    Overflow,
    BridgeNotConfigured,
    BridgeDisabled,
    AssetNotSupported,
    BelowMinimum { amount: Amount, minimum: Amount },
    AboveMaximum { amount: Amount, maximum: Amount },
    TransferNotFound { transfer_id: u64 },
    /// A bridge deposit with this transaction was already recorded.
    DepositAlreadyProcessed,
    /// The bridge transfer is not a pending withdrawal.
    TransferNotPending,
}

#[derive(Clone, Copy, Debug, PartialEq, Eq, Structural, Default)]
pub struct SettlementStats {
    pub total_settlements: u64,
    pub completed_settlements: u64,
    pub failed_settlements: u64,
    pub total_volume: Amount,
}

/// Everything the settlement engine keeps.
pub struct SettlementState {
    /// The id the next settlement gets.
    pub next_settlement_id: SettlementId,
    /// All settlements; the one with id `k` stands at index `k - 1`.
    pub settlements: Vec<Settlement>,
    /// `(expires_at, id)` of every settlement, in order of creation.
    pub expiration_queue: Vec<(Timestamp, SettlementId)>,
    pub ledger: BalanceLedger,
    pub stats: SettlementStats,
    /// Bridge configurations; the first one of a chain id counts.
    pub bridge_configs: Vec<BridgeConfig>,
    /// The id the next bridge transfer gets.
    pub next_transfer_id: u64,
    /// Bridge transfers; the one with id `k` stands at index `k - 1`.
    pub bridge_transfers: Vec<BridgeTransfer>,
}

/// The settlement engine.
pub struct SettlementContract {
    pub state: SettlementState,
}

/// Most settlements that one call of `process_expired_settlements` expires.
pub const EXPIRY_BATCH: u64 = 10;

pub open spec fn is_terminal(st: SettlementStatus) -> bool {
    st == SettlementStatus::Completed || st == SettlementStatus::Failed || st
        == SettlementStatus::Refunded || st == SettlementStatus::Expired || st
        == SettlementStatus::Cancelled
}

/// A status in which a settlement may still take escrow or be cancelled.
pub open spec fn is_open(st: SettlementStatus) -> bool {
    st == SettlementStatus::Pending || st == SettlementStatus::MakerEscrowed || st
        == SettlementStatus::TakerEscrowed
}

pub open spec fn maker_holds(st: SettlementStatus) -> bool {
    st == SettlementStatus::MakerEscrowed || st == SettlementStatus::FullyEscrowed
}

pub open spec fn taker_holds(st: SettlementStatus) -> bool {
    st == SettlementStatus::TakerEscrowed || st == SettlementStatus::FullyEscrowed
}

/// The escrow flags agree with the status, and no settlement rests fully
/// escrowed or mid-execution: escrowing the second side executes at once.
pub open spec fn flags_consistent(s: Settlement) -> bool {
    &&& flags_loose(s)
    &&& s.status != SettlementStatus::FullyEscrowed
}

/// The escrow flags agree with the status.
pub open spec fn flags_loose(s: Settlement) -> bool {
    &&& maker_holds(s.status) ==> s.maker_escrow.is_escrowed
    &&& taker_holds(s.status) ==> s.taker_escrow.is_escrowed
    &&& s.status == SettlementStatus::Pending ==> !s.maker_escrow.is_escrowed
        && !s.taker_escrow.is_escrowed
    &&& s.status == SettlementStatus::MakerEscrowed ==> !s.taker_escrow.is_escrowed
    &&& s.status == SettlementStatus::TakerEscrowed ==> !s.maker_escrow.is_escrowed
    &&& s.status != SettlementStatus::Executing
    &&& s.status != SettlementStatus::Failed
}

/// What settlement `s` has in escrow from `acct` in asset `a`.
pub open spec fn expected_escrow(s: Settlement, acct: Account, a: Seq<char>) -> int {
    (if maker_holds(s.status) && acct == s.maker && a == s.maker_asset@ {
        s.maker_amount as int
    } else {
        0
    }) + (if taker_holds(s.status) && acct == s.taker && a == s.taker_asset@ {
        s.taker_amount as int
    } else {
        0
    })
}

/// The change to the balance of `(h, b)` when settlement `s` pays each escrow
/// to the counterparty.
pub open spec fn payout_delta(s: Settlement, h: Holder, b: Seq<char>) -> int {
    tdelta(h, b, Holder::Escrowed(s.id, s.maker), Holder::Free(s.taker), s.maker_asset@, s.maker_amount as int)
        + tdelta(h, b, Holder::Escrowed(s.id, s.taker), Holder::Free(s.maker), s.taker_asset@, s.taker_amount as int)
}

/// The change to the balance of `(h, b)` when settlement `s` returns every
/// escrow that it holds to its owner.
pub open spec fn refund_delta(s: Settlement, h: Holder, b: Seq<char>) -> int {
    (if maker_holds(s.status) {
        tdelta(h, b, Holder::Escrowed(s.id, s.maker), Holder::Free(s.maker), s.maker_asset@, s.maker_amount as int)
    } else {
        0
    }) + (if taker_holds(s.status) {
        tdelta(h, b, Holder::Escrowed(s.id, s.taker), Holder::Free(s.taker), s.taker_asset@, s.taker_amount as int)
    } else {
        0
    })
}

/// Every entry of the expiration queue names a settlement and carries its deadline.
pub open spec fn queue_ok(q: Seq<(Timestamp, SettlementId)>, s: Seq<Settlement>) -> bool {
    forall|j: int|
        0 <= j < q.len() ==> 1 <= (#[trigger] q[j]).1 <= s.len() && q[j].0 == s[q[j].1 - 1].expires_at
}

proof fn lemma_queue_update(q: Seq<(Timestamp, SettlementId)>, s: Seq<Settlement>, i: int, x: Settlement)
    requires
        queue_ok(q, s),
        0 <= i < s.len(),
        x.expires_at == s[i].expires_at,
    ensures
        queue_ok(q, s.update(i, x)),
{
    assert forall|j: int| 0 <= j < q.len() implies 1 <= (#[trigger] q[j]).1 <= s.update(i, x).len()
        && q[j].0 == s.update(i, x)[q[j].1 - 1].expires_at by {}
}

proof fn lemma_queue_push(q: Seq<(Timestamp, SettlementId)>, s: Seq<Settlement>, x: Settlement)
    requires
        queue_ok(q, s),
        s.len() + 1 <= u64::MAX,
    ensures
        queue_ok(q.push((x.expires_at, (s.len() + 1) as u64)), s.push(x)),
{
    let q2 = q.push((x.expires_at, (s.len() + 1) as u64));
    assert forall|j: int| 0 <= j < q2.len() implies 1 <= (#[trigger] q2[j]).1 <= s.push(x).len()
        && q2[j].0 == s.push(x)[q2[j].1 - 1].expires_at by {
        if j < q.len() {
            assert(q2[j] == q[j]);
        }
    }
}

proof fn lemma_queue_tail(q: Seq<(Timestamp, SettlementId)>, s: Seq<Settlement>)
    requires
        queue_ok(q, s),
        q.len() > 0,
    ensures
        queue_ok(q.subrange(1, q.len() as int), s),
{
    let q2 = q.subrange(1, q.len() as int);
    assert forall|j: int| 0 <= j < q2.len() implies 1 <= (#[trigger] q2[j]).1 <= s.len()
        && q2[j].0 == s[q2[j].1 - 1].expires_at by {
        assert(q2[j] == q[j + 1]);
    }
}

impl SettlementState {
    pub open spec fn has(&self, sid: int) -> bool {
        1 <= sid <= self.settlements@.len()
    }

    pub open spec fn get(&self, sid: int) -> Settlement {
        self.settlements@[sid - 1]
    }

    pub open spec fn escrow_expected(&self, sid: int, acct: Account, a: Seq<char>) -> int {
        if self.has(sid) {
            expected_escrow(self.get(sid), acct, a)
        } else {
            0
        }
    }

    pub open spec fn wf(&self) -> bool {
        &&& self.ledger.wf()
        &&& self.bridge_ok()
        &&& queue_ok(self.expiration_queue@, self.settlements@)
        &&& self.next_settlement_id == self.settlements@.len() + 1
        &&& forall|i: int|
            0 <= i < self.settlements@.len() ==> #[trigger] self.settlements@[i].id == i + 1
        &&& forall|i: int|
            0 <= i < self.settlements@.len() ==> flags_consistent(#[trigger] self.settlements@[i])
        &&& forall|sid: SettlementId, acct: Account, a: Seq<char>| #[trigger]
            self.ledger.balance(Holder::Escrowed(sid, acct), a) == self.escrow_expected(
                sid as int,
                acct,
                a,
            )
    }

    /// Well formed, but for settlement `sid`, which is fully escrowed and about
    /// to execute.
    pub open spec fn ready_to_execute(&self, sid: int) -> bool {
        &&& self.ledger.wf()
        &&& self.bridge_ok()
        &&& queue_ok(self.expiration_queue@, self.settlements@)
        &&& self.next_settlement_id == self.settlements@.len() + 1
        &&& forall|i: int|
            0 <= i < self.settlements@.len() ==> #[trigger] self.settlements@[i].id == i + 1
        &&& self.has(sid)
        &&& flags_loose(self.get(sid))
        &&& self.get(sid).status == SettlementStatus::FullyEscrowed
        &&& forall|i: int|
            0 <= i < self.settlements@.len() && i != sid - 1 ==> flags_consistent(#[trigger] self.settlements@[i])
        &&& forall|k: SettlementId, acct: Account, a: Seq<char>| #[trigger]
            self.ledger.balance(Holder::Escrowed(k, acct), a) == self.escrow_expected(
                k as int,
                acct,
                a,
            )
    }

    /// Nothing differs from `prev`.
    pub open spec fn same_as(&self, prev: &Self) -> bool {
        &&& self.settlements@ == prev.settlements@
        &&& self.expiration_queue@ == prev.expiration_queue@
        &&& self.ledger == prev.ledger
        &&& self.next_settlement_id == prev.next_settlement_id
        &&& self.stats == prev.stats
        &&& self.bridge_configs@ == prev.bridge_configs@
        &&& self.bridge_transfers@ == prev.bridge_transfers@
        &&& self.next_transfer_id == prev.next_transfer_id
    }

    /// Every settlement but `sid` is as in `prev`.
    pub open spec fn others_unchanged(&self, prev: &Self, sid: int) -> bool {
        &&& self.settlements@.len() == prev.settlements@.len()
        &&& forall|i: int|
            0 <= i < self.settlements@.len() && i != sid - 1 ==> #[trigger] self.settlements@[i]
                == prev.settlements@[i]
    }
}

/// Settlement `s2` is `s` with another status, and nothing else changed.
pub open spec fn same_terms(s: Settlement, s2: Settlement) -> bool {
    &&& s2.id == s.id
    &&& s2.trade_id == s.trade_id
    &&& s2.maker == s.maker
    &&& s2.taker == s.taker
    &&& s2.maker_asset@ == s.maker_asset@
    &&& s2.taker_asset@ == s.taker_asset@
    &&& s2.maker_amount == s.maker_amount
    &&& s2.taker_amount == s.taker_amount
    &&& s2.expires_at == s.expires_at
    &&& s2.created_at == s.created_at
}

/// The index at which the settlement with id `sid` stands.
fn slot(sid: SettlementId, len: usize) -> (r: usize)
    requires
        1 <= sid <= len,
    ensures
        r == sid - 1,
{
    (sid - 1) as usize
}

impl SettlementContract {
    /// A settlement engine with no settlements and empty balances.
    pub fn new() -> (r: SettlementContract)
        ensures
            r.state.wf(),
            r.state.settlements@.len() == 0,
            forall|h: Holder, a: Seq<char>| #[trigger] r.state.ledger.balance(h, a) == 0,
    {
        SettlementContract {
            state: SettlementState {
                next_settlement_id: 1,
                settlements: Vec::new(),
                expiration_queue: Vec::new(),
                ledger: BalanceLedger::new(),
                stats: SettlementStats {
                    total_settlements: 0,
                    completed_settlements: 0,
                    failed_settlements: 0,
                    total_volume: 0,
                },
                bridge_configs: Vec::new(),
                next_transfer_id: 1,
                bridge_transfers: Vec::new(),
            },
        }
    }

    /// What `confirm_escrow` returns.
    pub open spec fn confirm_outcome(&self, caller: Account, now: Timestamp, sid: SettlementId) -> Result<(), SettlementError> {
        let st = self.state;
        if !st.has(sid as int) {
            Err(SettlementError::SettlementNotFound { settlement_id: sid })
        } else {
            let s = st.get(sid as int);
            if now > s.expires_at {
                Err(SettlementError::SettlementExpired { expired_at: s.expires_at })
            } else if caller != s.maker && caller != s.taker {
                Err(SettlementError::Unauthorized)
            } else if !is_open(s.status) {
                Err(SettlementError::InvalidStatus { expected: SettlementStatus::Pending, actual: s.status })
            } else if caller == s.maker {
                if s.maker_escrow.is_escrowed {
                    Err(SettlementError::AlreadyEscrowed)
                } else if st.ledger.free(caller, s.maker_asset@) < s.maker_amount {
                    Err(SettlementError::InsufficientBalance {
                        required: s.maker_amount,
                        available: st.ledger.free(caller, s.maker_asset@) as u128,
                    })
                } else {
                    Ok(())
                }
            } else if caller == s.taker {
                if s.taker_escrow.is_escrowed {
                    Err(SettlementError::AlreadyEscrowed)
                } else if st.ledger.free(caller, s.taker_asset@) < s.taker_amount {
                    Err(SettlementError::InsufficientBalance {
                        required: s.taker_amount,
                        available: st.ledger.free(caller, s.taker_asset@) as u128,
                    })
                } else {
                    Ok(())
                }
            } else {
                Err(SettlementError::Unauthorized)
            }
        }
    }

    /// `self` is `prev` with one more settlement, pending, between `maker` and
    /// `taker` on the given terms, opened at `now` and queued for expiry.
    pub open spec fn opened(
        &self,
        prev: &Self,
        now: Timestamp,
        trade_id: TradeId,
        maker: Account,
        taker: Account,
        maker_asset: Seq<char>,
        taker_asset: Seq<char>,
        maker_amount: Amount,
        taker_amount: Amount,
        timeout_seconds: u64,
    ) -> bool {
        let sid = prev.state.next_settlement_id;
        let s = self.state.get(sid as int);
        &&& self.state.next_settlement_id == sid + 1
        &&& self.state.settlements@.len() == prev.state.settlements@.len() + 1
        &&& forall|i: int|
            0 <= i < prev.state.settlements@.len() ==> #[trigger] self.state.settlements@[i]
                == prev.state.settlements@[i]
        &&& s.id == sid
        &&& s.trade_id == trade_id
        &&& s.maker == maker
        &&& s.taker == taker
        &&& s.maker_asset@ == maker_asset
        &&& s.taker_asset@ == taker_asset
        &&& s.maker_amount == maker_amount
        &&& s.taker_amount == taker_amount
        &&& s.status == SettlementStatus::Pending
        &&& s.created_at == now
        &&& s.expires_at == spec_deadline(now, timeout_seconds)
        &&& self.state.ledger == prev.state.ledger
        &&& self.state.expiration_queue@ == prev.state.expiration_queue@.push(
            (spec_deadline(now, timeout_seconds) as u64, sid),
        )
    }

    /// Opens a settlement of a trade: `maker` gives `maker_amount` of
    /// `maker_asset` for `taker_amount` of `taker_asset`, within `timeout_seconds`.
    /// Returns the new settlement's id.
    pub fn initiate_settlement(
        &mut self,
        now: Timestamp,
        trade_id: TradeId,
        maker: Account,
        taker: Account,
        maker_asset: String,
        taker_asset: String,
        maker_amount: Amount,
        taker_amount: Amount,
        timeout_seconds: u64,
    ) -> (r: SettlementId)
        requires
            old(self).state.wf(),
            old(self).state.settlements@.len() + 1 < u64::MAX,
        ensures
            final(self).state.wf(),
            r == old(self).state.next_settlement_id,
            final(self).opened(old(self), now, trade_id, maker, taker, maker_asset@, taker_asset@, maker_amount, taker_amount, timeout_seconds),
    {
        let sid = self.state.next_settlement_id;
        let expires_at = deadline(now, timeout_seconds);
        let s = Settlement {
            id: sid,
            trade_id,
            maker,
            taker,
            maker_asset,
            taker_asset,
            maker_amount,
            taker_amount,
            maker_escrow: EscrowState::default(),
            taker_escrow: EscrowState::default(),
            status: SettlementStatus::Pending,
            created_at: now,
            expires_at,
            completed_at: None,
            failure_reason: None,
            retry_count: 0,
        };
        let ghost old_state = self.state;
        let ghost sg = s;
        self.state.settlements.push(s);
        self.state.expiration_queue.push((expires_at, sid));
        self.state.stats.total_settlements = self.state.stats.total_settlements.saturating_add(1);
        self.state.next_settlement_id = sid + 1;
        proof {
            let st = self.state;
            lemma_queue_push(old_state.expiration_queue@, old_state.settlements@, sg);
            assert forall|i: int| 0 <= i < st.settlements@.len() implies #[trigger] st.settlements@[i].id == i + 1 by {
                if i < old_state.settlements@.len() {
                    assert(st.settlements@[i] == old_state.settlements@[i]);
                }
            }
            assert forall|i: int| 0 <= i < st.settlements@.len() implies flags_consistent(#[trigger] st.settlements@[i]) by {
                if i < old_state.settlements@.len() {
                    assert(st.settlements@[i] == old_state.settlements@[i]);
                }
            }
            assert forall|k: SettlementId, acct: Account, a: Seq<char>| #[trigger]
                st.ledger.balance(Holder::Escrowed(k, acct), a) == st.escrow_expected(k as int, acct, a) by {
                assert(old_state.ledger.balance(Holder::Escrowed(k, acct), a) == old_state.escrow_expected(k as int, acct, a));
                if old_state.has(k as int) {
                    assert(st.settlements@[k - 1] == old_state.settlements@[k - 1]);
                }
            }
        }
        sid
    }

    /// `self` is `prev` after `caller` escrowed its side of settlement `sid` at `now`, and the settlement executed if that was the second side.
    pub open spec fn escrow_confirmed(&self, prev: &Self, caller: Account, now: Timestamp, sid: SettlementId) -> bool {
        let s = prev.state.get(sid as int);
        let s2 = self.state.get(sid as int);
        let is_maker = caller == s.maker;
        let asset = if is_maker { s.maker_asset@ } else { s.taker_asset@ };
        let amount = if is_maker { s.maker_amount } else { s.taker_amount };
        let other_escrowed = if is_maker { s.taker_escrow.is_escrowed } else { s.maker_escrow.is_escrowed };
        let rec = if is_maker { s2.maker_escrow } else { s2.taker_escrow };
        &&& self.state.others_unchanged(&prev.state, sid as int)
        &&& same_terms(s, s2)
        &&& rec.is_escrowed && rec.amount == amount && rec.asset@ == asset && rec.escrowed_at == Some(now)
        &&& self.state.ledger.same_flows(&prev.state.ledger)
        &&& if other_escrowed {
            &&& s2.status == SettlementStatus::Completed
            &&& s2.completed_at == Some(now)
            &&& forall|h: Holder, b: Seq<char>| #[trigger] self.state.ledger.balance(h, b)
                == prev.state.ledger.balance(h, b) + tdelta(h, b, Holder::Free(caller), Holder::Escrowed(sid, caller), asset, amount as int) + payout_delta(s, h, b)
        } else {
            &&& s2.status == (if is_maker { SettlementStatus::MakerEscrowed } else { SettlementStatus::TakerEscrowed })
            &&& self.state.ledger.moved(&prev.state.ledger, asset, Holder::Free(caller), -amount, Holder::Escrowed(sid, caller), amount as int)
        }
    }

    /// Escrows the caller's side of settlement `sid`. When that completes the
    /// escrow of both sides, the settlement executes at once: each escrow is paid
    /// to the counterparty and the settlement ends `Completed`.
    pub fn confirm_escrow(&mut self, caller: Account, now: Timestamp, sid: SettlementId) -> (r: Result<(), SettlementError>)
        requires
            old(self).state.wf(),
        ensures
            final(self).state.wf(),
            r == old(self).confirm_outcome(caller, now, sid),
            r is Err ==> final(self).state.same_as(&old(self).state),
            r is Ok ==> final(self).escrow_confirmed(old(self), caller, now, sid),
    {
        if sid == 0 || sid >= self.state.next_settlement_id {
            return Err(SettlementError::SettlementNotFound { settlement_id: sid });
        }
        let idx = slot(sid, self.state.settlements.len());
        let expires_at = self.state.settlements[idx].expires_at;
        if now > expires_at {
            return Err(SettlementError::SettlementExpired { expired_at: expires_at });
        }
        if caller != self.state.settlements[idx].maker && caller != self.state.settlements[idx].taker {
            return Err(SettlementError::Unauthorized);
        }
        let status = self.state.settlements[idx].status;
        if !(status == SettlementStatus::Pending || status == SettlementStatus::MakerEscrowed
            || status == SettlementStatus::TakerEscrowed) {
            return Err(SettlementError::InvalidStatus { expected: SettlementStatus::Pending, actual: status });
        }
        let is_maker;
        if caller == self.state.settlements[idx].maker {
            if self.state.settlements[idx].maker_escrow.is_escrowed {
                return Err(SettlementError::AlreadyEscrowed);
            }
            is_maker = true;
        } else if caller == self.state.settlements[idx].taker {
            if self.state.settlements[idx].taker_escrow.is_escrowed {
                return Err(SettlementError::AlreadyEscrowed);
            }
            is_maker = false;
        } else {
            return Err(SettlementError::Unauthorized);
        }
        let ghost old_state = self.state;
        let ghost s = self.state.settlements@[idx as int];
        let mut cur = self.state.settlements.remove(idx);
        let asset = if is_maker { cur.maker_asset.clone() } else { cur.taker_asset.clone() };
        let amount = if is_maker { cur.maker_amount } else { cur.taker_amount };
        match self.state.ledger.escrow(sid, caller, &asset, amount) {
            Err(LedgerError::InsufficientBalance { required, available }) => {
                self.state.settlements.insert(idx, cur);
                proof {
                    assert(self.state.settlements@ =~= old_state.settlements@);
                }
                return Err(SettlementError::InsufficientBalance { required, available });
            },
            Err(LedgerError::Overflow) => {
                self.state.settlements.insert(idx, cur);
                proof {
                    assert(self.state.settlements@ =~= old_state.settlements@);
                }
                return Err(SettlementError::Overflow);
            },
            Ok(()) => {},
        }
        let escrow_state = EscrowState { is_escrowed: true, amount, asset, escrowed_at: Some(now) };
        let fully;
        if is_maker {
            cur.maker_escrow = escrow_state;
            fully = cur.taker_escrow.is_escrowed;
            cur.status = if fully { SettlementStatus::FullyEscrowed } else { SettlementStatus::MakerEscrowed };
        } else {
            cur.taker_escrow = escrow_state;
            fully = cur.maker_escrow.is_escrowed;
            cur.status = if fully { SettlementStatus::FullyEscrowed } else { SettlementStatus::TakerEscrowed };
        }
        self.state.settlements.insert(idx, cur);
        let ghost mid_ledger = self.state.ledger;
        proof {
            let st = self.state;
            let s2 = st.settlements@[idx as int];
            assert(st.settlements@ =~= old_state.settlements@.update(idx as int, s2));
            lemma_queue_update(old_state.expiration_queue@, old_state.settlements@, idx as int, s2);
            assert forall|i: int| 0 <= i < st.settlements@.len() implies #[trigger] st.settlements@[i].id == i + 1 by {
                if i != idx {
                    assert(st.settlements@[i] == old_state.settlements@[i]);
                }
            }
            assert forall|i: int| 0 <= i < st.settlements@.len() && i != sid - 1 implies flags_consistent(#[trigger] st.settlements@[i]) by {
                assert(st.settlements@[i] == old_state.settlements@[i]);
            }
            assert(flags_loose(s2));
            if !fully {
                assert forall|i: int| 0 <= i < st.settlements@.len() implies flags_consistent(#[trigger] st.settlements@[i]) by {
                    if i != idx {
                        assert(st.settlements@[i] == old_state.settlements@[i]);
                    }
                }
            }
            assert forall|k: SettlementId, acct: Account, a: Seq<char>| #[trigger]
                st.ledger.balance(Holder::Escrowed(k, acct), a) == st.escrow_expected(k as int, acct, a) by {
                assert(old_state.ledger.balance(Holder::Escrowed(k, acct), a) == old_state.escrow_expected(k as int, acct, a));
                if old_state.has(k as int) && k != sid {
                    assert(st.settlements@[k - 1] == old_state.settlements@[k - 1]);
                }
            }
        }
        if fully {
            self.execute_core(sid, now);
        }
        Ok(())
    }

    /// Pays each escrow of settlement `sid` to the counterparty and marks it `Completed`.
    fn execute_core(&mut self, sid: SettlementId, now: Timestamp)
        requires
            old(self).state.ready_to_execute(sid as int),
        ensures
            final(self).state.wf(),
            final(self).state.others_unchanged(&old(self).state, sid as int),
            same_terms(old(self).state.get(sid as int), final(self).state.get(sid as int)),
            final(self).state.get(sid as int).status == SettlementStatus::Completed,
            final(self).state.get(sid as int).completed_at == Some(now),
            final(self).state.get(sid as int).maker_escrow == old(self).state.get(sid as int).maker_escrow,
            final(self).state.get(sid as int).taker_escrow == old(self).state.get(sid as int).taker_escrow,
            final(self).state.ledger.same_flows(&old(self).state.ledger),
            forall|h: Holder, b: Seq<char>| #[trigger] final(self).state.ledger.balance(h, b)
                == old(self).state.ledger.balance(h, b) + payout_delta(old(self).state.get(sid as int), h, b),
            final(self).state.next_settlement_id == old(self).state.next_settlement_id,
            final(self).state.expiration_queue == old(self).state.expiration_queue,
    {
        let idx = slot(sid, self.state.settlements.len());
        let ghost old_state = self.state;
        let ghost s = self.state.settlements@[idx as int];
        let mut cur = self.state.settlements.remove(idx);
        proof {
            assert(s.id == sid);
            assert(old_state.ledger.balance(Holder::Escrowed(sid, s.maker), s.maker_asset@) == old_state.escrow_expected(sid as int, s.maker, s.maker_asset@));
            assert(old_state.ledger.balance(Holder::Escrowed(sid, s.taker), s.taker_asset@) == old_state.escrow_expected(sid as int, s.taker, s.taker_asset@));
        }
        self.state.ledger.pay_escrow(sid, cur.maker, &cur.maker_asset, cur.maker_amount, cur.taker);
        let ghost l1 = self.state.ledger;
        proof {
            assert(l1.balance(Holder::Escrowed(sid, s.taker), s.taker_asset@) == old_state.ledger.balance(Holder::Escrowed(sid, s.taker), s.taker_asset@) + delta(Holder::Escrowed(sid, s.taker), s.taker_asset@, Holder::Escrowed(sid, s.maker), s.maker_asset@, -s.maker_amount) + delta(Holder::Escrowed(sid, s.taker), s.taker_asset@, Holder::Free(s.taker), s.maker_asset@, s.maker_amount as int));
        }
        self.state.ledger.pay_escrow(sid, cur.taker, &cur.taker_asset, cur.taker_amount, cur.maker);
        cur.status = SettlementStatus::Completed;
        cur.completed_at = Some(now);
        let vol = cur.maker_amount.saturating_add(cur.taker_amount);
        self.state.settlements.insert(idx, cur);
        self.state.stats.completed_settlements = self.state.stats.completed_settlements.saturating_add(1);
        self.state.stats.total_volume = self.state.stats.total_volume.saturating_add(vol);
        proof {
            let st = self.state;
            let s2 = st.settlements@[idx as int];
            assert(st.settlements@ =~= old_state.settlements@.update(idx as int, s2));
            lemma_queue_update(old_state.expiration_queue@, old_state.settlements@, idx as int, s2);
            assert forall|i: int| 0 <= i < st.settlements@.len() implies #[trigger] st.settlements@[i].id == i + 1 by {
                if i != idx {
                    assert(st.settlements@[i] == old_state.settlements@[i]);
                }
            }
            assert forall|i: int| 0 <= i < st.settlements@.len() implies flags_consistent(#[trigger] st.settlements@[i]) by {
                if i != idx {
                    assert(st.settlements@[i] == old_state.settlements@[i]);
                }
            }
            assert forall|h: Holder, b: Seq<char>| #[trigger] st.ledger.balance(h, b)
                == old_state.ledger.balance(h, b) + payout_delta(s, h, b) by {
                assert(l1.balance(h, b) == old_state.ledger.balance(h, b) + delta(h, b, Holder::Escrowed(sid, s.maker), s.maker_asset@, -s.maker_amount) + delta(h, b, Holder::Free(s.taker), s.maker_asset@, s.maker_amount as int));
            }
            assert forall|k: SettlementId, acct: Account, a: Seq<char>| #[trigger]
                st.ledger.balance(Holder::Escrowed(k, acct), a) == st.escrow_expected(k as int, acct, a) by {
                assert(old_state.ledger.balance(Holder::Escrowed(k, acct), a) == old_state.escrow_expected(k as int, acct, a));
                assert(st.ledger.balance(Holder::Escrowed(k, acct), a) == old_state.ledger.balance(Holder::Escrowed(k, acct), a) + payout_delta(s, Holder::Escrowed(k, acct), a));
                if old_state.has(k as int) && k != sid {
                    assert(st.settlements@[k - 1] == old_state.settlements@[k - 1]);
                }
            }
        }
    }
}

impl SettlementContract {
    /// What `execute_settlement` returns.
    pub open spec fn execute_outcome(&self, now: Timestamp, sid: SettlementId) -> Result<(), SettlementError> {
        let st = self.state;
        if !st.has(sid as int) {
            Err(SettlementError::SettlementNotFound { settlement_id: sid })
        } else if st.get(sid as int).status != SettlementStatus::FullyEscrowed {
            Err(SettlementError::InvalidStatus {
                expected: SettlementStatus::FullyEscrowed,
                actual: st.get(sid as int).status,
            })
        } else if now > st.get(sid as int).expires_at {
            Err(SettlementError::SettlementExpired { expired_at: st.get(sid as int).expires_at })
        } else {
            Ok(())
        }
    }

    /// `self` is `prev` after settlement `sid` executed at `now`.
    pub open spec fn executed(&self, prev: &Self, sid: SettlementId, now: Timestamp) -> bool {
        &&& self.state.wf()
        &&& self.state.others_unchanged(&prev.state, sid as int)
        &&& same_terms(prev.state.get(sid as int), self.state.get(sid as int))
        &&& self.state.get(sid as int).status == SettlementStatus::Completed
        &&& self.state.get(sid as int).completed_at == Some(now)
        &&& self.state.ledger.same_flows(&prev.state.ledger)
        &&& forall|h: Holder, b: Seq<char>| #[trigger] self.state.ledger.balance(h, b)
            == prev.state.ledger.balance(h, b) + payout_delta(prev.state.get(sid as int), h, b)
    }

    /// Executes a fully escrowed settlement that has not expired: each escrow
    /// is paid to the counterparty. Callable by anyone.
    pub fn execute_settlement(&mut self, now: Timestamp, sid: SettlementId) -> (r: Result<(), SettlementError>)
        requires
            old(self).state.wf(),
        ensures
            final(self).state.wf(),
            r == old(self).execute_outcome(now, sid),
            r is Err ==> final(self).state.same_as(&old(self).state),
            r is Ok ==> final(self).executed(old(self), sid, now),
    {
        if sid == 0 || sid >= self.state.next_settlement_id {
            return Err(SettlementError::SettlementNotFound { settlement_id: sid });
        }
        let idx = slot(sid, self.state.settlements.len());
        let status = self.state.settlements[idx].status;
        if status != SettlementStatus::FullyEscrowed {
            return Err(SettlementError::InvalidStatus { expected: SettlementStatus::FullyEscrowed, actual: status });
        }
        let expires_at = self.state.settlements[idx].expires_at;
        if now > expires_at {
            return Err(SettlementError::SettlementExpired { expired_at: expires_at });
        }
        proof {
            assert(flags_consistent(self.state.settlements@[idx as int]));
        }
        self.execute_core(sid, now);
        Ok(())
    }

    /// Returns every escrow that settlement `sid` holds to its owner, and gives
    /// it status `to`.
    fn close_core(&mut self, sid: SettlementId, to: SettlementStatus)
        requires
            old(self).state.wf(),
            old(self).state.has(sid as int),
            is_terminal(to),
            to != SettlementStatus::Failed,
        ensures
            final(self).state.wf(),
            final(self).state.others_unchanged(&old(self).state, sid as int),
            same_terms(old(self).state.get(sid as int), final(self).state.get(sid as int)),
            final(self).state.get(sid as int).status == to,
            final(self).state.get(sid as int).maker_escrow.is_escrowed == old(self).state.get(sid as int).maker_escrow.is_escrowed,
            final(self).state.get(sid as int).taker_escrow.is_escrowed == old(self).state.get(sid as int).taker_escrow.is_escrowed,
            final(self).state.get(sid as int).completed_at == old(self).state.get(sid as int).completed_at,
            final(self).state.get(sid as int).failure_reason == old(self).state.get(sid as int).failure_reason,
            final(self).state.ledger.same_flows(&old(self).state.ledger),
            forall|h: Holder, b: Seq<char>| #[trigger] final(self).state.ledger.balance(h, b)
                == old(self).state.ledger.balance(h, b) + refund_delta(old(self).state.get(sid as int), h, b),
            final(self).state.next_settlement_id == old(self).state.next_settlement_id,
            final(self).state.expiration_queue == old(self).state.expiration_queue,
    {
        let idx = slot(sid, self.state.settlements.len());
        let ghost old_state = self.state;
        let ghost s = self.state.settlements@[idx as int];
        let mut cur = self.state.settlements.remove(idx);
        proof {
            assert(s.id == sid);
            assert(old_state.ledger.balance(Holder::Escrowed(sid, s.maker), s.maker_asset@) == old_state.escrow_expected(sid as int, s.maker, s.maker_asset@));
            assert(old_state.ledger.balance(Holder::Escrowed(sid, s.taker), s.taker_asset@) == old_state.escrow_expected(sid as int, s.taker, s.taker_asset@));
        }
        let maker_held = cur.status == SettlementStatus::MakerEscrowed || cur.status == SettlementStatus::FullyEscrowed;
        let taker_held = cur.status == SettlementStatus::TakerEscrowed || cur.status == SettlementStatus::FullyEscrowed;
        if maker_held {
            self.state.ledger.pay_escrow(sid, cur.maker, &cur.maker_asset, cur.maker_amount, cur.maker);
        }
        let ghost l1 = self.state.ledger;
        proof {
            assert forall|h: Holder, b: Seq<char>| #[trigger] l1.balance(h, b) == old_state.ledger.balance(h, b) + (if maker_held {
                tdelta(h, b, Holder::Escrowed(sid, s.maker), Holder::Free(s.maker), s.maker_asset@, s.maker_amount as int) } else { 0 }) by {}
            assert(l1.balance(Holder::Escrowed(sid, s.taker), s.taker_asset@) == old_state.ledger.balance(Holder::Escrowed(sid, s.taker), s.taker_asset@) + (if maker_held {
                tdelta(Holder::Escrowed(sid, s.taker), s.taker_asset@, Holder::Escrowed(sid, s.maker), Holder::Free(s.maker), s.maker_asset@, s.maker_amount as int) } else { 0 }));
        }
        if taker_held {
            self.state.ledger.pay_escrow(sid, cur.taker, &cur.taker_asset, cur.taker_amount, cur.taker);
        }
        cur.status = to;
        self.state.settlements.insert(idx, cur);
        proof {
            let st = self.state;
            let s2 = st.settlements@[idx as int];
            assert(st.settlements@ =~= old_state.settlements@.update(idx as int, s2));
            lemma_queue_update(old_state.expiration_queue@, old_state.settlements@, idx as int, s2);
            assert forall|i: int| 0 <= i < st.settlements@.len() implies #[trigger] st.settlements@[i].id == i + 1 by {
                if i != idx {
                    assert(st.settlements@[i] == old_state.settlements@[i]);
                }
            }
            assert forall|i: int| 0 <= i < st.settlements@.len() implies flags_consistent(#[trigger] st.settlements@[i]) by {
                if i != idx {
                    assert(st.settlements@[i] == old_state.settlements@[i]);
                }
            }
            assert forall|h: Holder, b: Seq<char>| #[trigger] st.ledger.balance(h, b)
                == old_state.ledger.balance(h, b) + refund_delta(s, h, b) by {
                assert(l1.balance(h, b) == old_state.ledger.balance(h, b) + (if maker_held {
                    tdelta(h, b, Holder::Escrowed(sid, s.maker), Holder::Free(s.maker), s.maker_asset@, s.maker_amount as int) } else { 0 }));
            }
            assert forall|k: SettlementId, acct: Account, a: Seq<char>| #[trigger]
                st.ledger.balance(Holder::Escrowed(k, acct), a) == st.escrow_expected(k as int, acct, a) by {
                assert(old_state.ledger.balance(Holder::Escrowed(k, acct), a) == old_state.escrow_expected(k as int, acct, a));
                assert(st.ledger.balance(Holder::Escrowed(k, acct), a) == old_state.ledger.balance(Holder::Escrowed(k, acct), a) + refund_delta(s, Holder::Escrowed(k, acct), a));
                if old_state.has(k as int) && k != sid {
                    assert(st.settlements@[k - 1] == old_state.settlements@[k - 1]);
                }
            }
        }
    }

    /// What `cancel_settlement` returns.
    pub open spec fn cancel_outcome(&self, caller: Account, sid: SettlementId) -> Result<(), SettlementError> {
        let st = self.state;
        if !st.has(sid as int) {
            Err(SettlementError::SettlementNotFound { settlement_id: sid })
        } else if caller != st.get(sid as int).maker && caller != st.get(sid as int).taker {
            Err(SettlementError::Unauthorized)
        } else if !is_open(st.get(sid as int).status) {
            Err(SettlementError::CannotCancel { status: st.get(sid as int).status })
        } else {
            Ok(())
        }
    }

    /// `self` is `prev` after settlement `sid` was cancelled with `reason` and its escrows returned.
    pub open spec fn settlement_cancelled(&self, prev: &Self, caller: Account, sid: SettlementId, reason: String) -> bool {
        let s = prev.state.get(sid as int);
        let s2 = self.state.get(sid as int);
        &&& self.state.others_unchanged(&prev.state, sid as int)
        &&& same_terms(s, s2)
        &&& s2.status == SettlementStatus::Cancelled
        &&& s2.failure_reason == Some(reason)
        &&& self.state.ledger.same_flows(&prev.state.ledger)
        &&& forall|h: Holder, b: Seq<char>| #[trigger] self.state.ledger.balance(h, b)
            == prev.state.ledger.balance(h, b) + refund_delta(s, h, b)
    }

    /// Cancels a settlement that is not yet fully escrowed; whatever was escrowed
    /// goes back to its owner.
    pub fn cancel_settlement(&mut self, caller: Account, sid: SettlementId, reason: String) -> (r: Result<(), SettlementError>)
        requires
            old(self).state.wf(),
        ensures
            final(self).state.wf(),
            r == old(self).cancel_outcome(caller, sid),
            r is Err ==> final(self).state.same_as(&old(self).state),
            r is Ok ==> final(self).settlement_cancelled(old(self), caller, sid, reason),
    {
        if sid == 0 || sid >= self.state.next_settlement_id {
            return Err(SettlementError::SettlementNotFound { settlement_id: sid });
        }
        let idx = slot(sid, self.state.settlements.len());
        if caller != self.state.settlements[idx].maker && caller != self.state.settlements[idx].taker {
            return Err(SettlementError::Unauthorized);
        }
        let status = self.state.settlements[idx].status;
        if !(status == SettlementStatus::Pending || status == SettlementStatus::MakerEscrowed
            || status == SettlementStatus::TakerEscrowed) {
            return Err(SettlementError::CannotCancel { status });
        }
        self.close_core(sid, SettlementStatus::Cancelled);
        let ghost mid = self.state;
        let mut cur = self.state.settlements.remove(idx);
        cur.failure_reason = Some(reason);
        self.state.settlements.insert(idx, cur);
        proof {
            let st = self.state;
            assert(st.settlements@ =~= mid.settlements@.update(idx as int, st.settlements@[idx as int]));
            lemma_queue_update(mid.expiration_queue@, mid.settlements@, idx as int, st.settlements@[idx as int]);
            assert forall|i: int| 0 <= i < st.settlements@.len() implies #[trigger] st.settlements@[i].id == i + 1 by {
                if i != idx {
                    assert(st.settlements@[i] == mid.settlements@[i]);
                }
            }
            assert forall|i: int| 0 <= i < st.settlements@.len() implies flags_consistent(#[trigger] st.settlements@[i]) by {
                if i != idx {
                    assert(st.settlements@[i] == mid.settlements@[i]);
                }
            }
            assert forall|k: SettlementId, acct: Account, a: Seq<char>| #[trigger]
                st.ledger.balance(Holder::Escrowed(k, acct), a) == st.escrow_expected(k as int, acct, a) by {
                assert(mid.ledger.balance(Holder::Escrowed(k, acct), a) == mid.escrow_expected(k as int, acct, a));
                if mid.has(k as int) && k != sid {
                    assert(st.settlements@[k - 1] == mid.settlements@[k - 1]);
                }
            }
        }
        Ok(())
    }
}

impl SettlementContract {
    /// Whether settlement `s` may be refunded at `now`.
    pub open spec fn refundable(s: Settlement, now: Timestamp) -> bool {
        s.status == SettlementStatus::Expired || s.status == SettlementStatus::Failed || s.status
            == SettlementStatus::Cancelled || (!is_terminal(s.status) && now > s.expires_at)
    }

    /// What `claim_refund` returns.
    pub open spec fn claim_outcome(&self, caller: Account, now: Timestamp, sid: SettlementId) -> Result<(), SettlementError> {
        let st = self.state;
        if !st.has(sid as int) {
            Err(SettlementError::SettlementNotFound { settlement_id: sid })
        } else {
            let s = st.get(sid as int);
            if caller != s.maker && caller != s.taker {
                Err(SettlementError::Unauthorized)
            } else if !Self::refundable(s, now) {
                Err(SettlementError::CannotCancel { status: s.status })
            } else if !(caller == s.maker && s.maker_escrow.is_escrowed) && !(caller == s.taker
                && s.taker_escrow.is_escrowed) {
                Err(SettlementError::InsufficientBalance { required: 0, available: 0 })
            } else {
                Ok(())
            }
        }
    }

    /// `self` is `prev` after `caller` claimed back its escrow of settlement `sid` at `now`.
    pub open spec fn refund_claimed(&self, prev: &Self, caller: Account, now: Timestamp, sid: SettlementId) -> bool {
        let s = prev.state.get(sid as int);
        let s2 = self.state.get(sid as int);
        let maker_claim = caller == s.maker && s.maker_escrow.is_escrowed;
        let m2 = !maker_claim && s.maker_escrow.is_escrowed;
        let t2 = maker_claim && s.taker_escrow.is_escrowed;
        &&& self.state.others_unchanged(&prev.state, sid as int)
        &&& same_terms(s, s2)
        &&& s2.maker_escrow.is_escrowed == m2
        &&& s2.taker_escrow.is_escrowed == t2
        &&& s2.status == if !m2 && !t2 {
            SettlementStatus::Refunded
        } else if is_terminal(s.status) {
            s.status
        } else {
            SettlementStatus::Expired
        }
        &&& self.state.ledger.same_flows(&prev.state.ledger)
        &&& forall|h: Holder, b: Seq<char>| #[trigger] self.state.ledger.balance(h, b)
            == prev.state.ledger.balance(h, b) + if is_terminal(s.status) {
                0
            } else {
                refund_delta(s, h, b)
            }
        // only the caller's own escrow comes back, to the caller
        &&& !is_terminal(s.status) ==> forall|h: Holder, b: Seq<char>| #[trigger] self.state.ledger.balance(h, b)
            == prev.state.ledger.balance(h, b) + tdelta(h, b, Holder::Escrowed(sid, caller), Holder::Free(caller),
                if maker_claim { s.maker_asset@ } else { s.taker_asset@ },
                if maker_claim { s.maker_amount as int } else { s.taker_amount as int })
    }

    /// Claims back the caller's escrow of a settlement that failed, expired or
    /// was cancelled. A settlement past its deadline and not finished expires
    /// first, and its escrows go back to their owners. Once no party has a claim
    /// left the settlement is `Refunded`.
    pub fn claim_refund(&mut self, caller: Account, now: Timestamp, sid: SettlementId) -> (r: Result<(), SettlementError>)
        requires
            old(self).state.wf(),
        ensures
            final(self).state.wf(),
            r == old(self).claim_outcome(caller, now, sid),
            r is Err ==> final(self).state.same_as(&old(self).state),
            r is Ok ==> final(self).refund_claimed(old(self), caller, now, sid),
    {
        if sid == 0 || sid >= self.state.next_settlement_id {
            return Err(SettlementError::SettlementNotFound { settlement_id: sid });
        }
        let idx = slot(sid, self.state.settlements.len());
        let maker = self.state.settlements[idx].maker;
        let taker = self.state.settlements[idx].taker;
        if caller != maker && caller != taker {
            return Err(SettlementError::Unauthorized);
        }
        let status = self.state.settlements[idx].status;
        let settled = status == SettlementStatus::Expired || status == SettlementStatus::Failed
            || status == SettlementStatus::Cancelled;
        let terminal = settled || status == SettlementStatus::Completed || status == SettlementStatus::Refunded;
        if !settled && !(!terminal && now > self.state.settlements[idx].expires_at) {
            return Err(SettlementError::CannotCancel { status });
        }
        let maker_claim = caller == maker && self.state.settlements[idx].maker_escrow.is_escrowed;
        let taker_claim = caller == taker && self.state.settlements[idx].taker_escrow.is_escrowed;
        if !maker_claim && !taker_claim {
            return Err(SettlementError::InsufficientBalance { required: 0, available: 0 });
        }
        let ghost old_state = self.state;
        if !terminal {
            self.close_core(sid, SettlementStatus::Expired);
        }
        let ghost mid = self.state;
        proof {
            if terminal {
                assert(mid.ledger == old_state.ledger);
            }
        }
        let mut cur = self.state.settlements.remove(idx);
        if maker_claim {
            cur.maker_escrow.is_escrowed = false;
        } else {
            cur.taker_escrow.is_escrowed = false;
        }
        if !cur.maker_escrow.is_escrowed && !cur.taker_escrow.is_escrowed {
            cur.status = SettlementStatus::Refunded;
        }
        self.state.settlements.insert(idx, cur);
        proof {
            let st = self.state;
            assert(st.settlements@ =~= mid.settlements@.update(idx as int, st.settlements@[idx as int]));
            lemma_queue_update(mid.expiration_queue@, mid.settlements@, idx as int, st.settlements@[idx as int]);
            assert forall|i: int| 0 <= i < st.settlements@.len() implies #[trigger] st.settlements@[i].id == i + 1 by {
                if i != idx {
                    assert(st.settlements@[i] == mid.settlements@[i]);
                }
            }
            assert forall|i: int| 0 <= i < st.settlements@.len() implies flags_consistent(#[trigger] st.settlements@[i]) by {
                if i != idx {
                    assert(st.settlements@[i] == mid.settlements@[i]);
                }
            }
            assert forall|k: SettlementId, acct: Account, a: Seq<char>| #[trigger]
                st.ledger.balance(Holder::Escrowed(k, acct), a) == st.escrow_expected(k as int, acct, a) by {
                assert(mid.ledger.balance(Holder::Escrowed(k, acct), a) == mid.escrow_expected(k as int, acct, a));
                if mid.has(k as int) && k != sid {
                    assert(st.settlements@[k - 1] == mid.settlements@[k - 1]);
                }
            }
            assert forall|h: Holder, b: Seq<char>| #[trigger] st.ledger.balance(h, b)
                == old_state.ledger.balance(h, b) + if terminal { 0 } else { refund_delta(old_state.get(sid as int), h, b) } by {
                if terminal {
                    assert(mid.ledger == old_state.ledger);
                }
            }
            assert(flags_consistent(old_state.settlements@[idx as int]));
        }
        Ok(())
    }

    /// `self` is `prev` after the due entries at the front of the expiration
    /// queue were taken off and the `n` settlements they named that were not
    /// finished were expired at `now`, their escrows returned to their owners;
    /// at most `EXPIRY_BATCH` of them.
    pub open spec fn expiry_processed(&self, prev: &Self, now: Timestamp, n: int) -> bool {
        &&& n <= EXPIRY_BATCH
        &&& self.state.settlements@.len() == prev.state.settlements@.len()
        &&& forall|i: int| 0 <= i < prev.state.settlements@.len() ==> {
            let s = prev.state.settlements@[i];
            let s2 = #[trigger] self.state.settlements@[i];
            s2 == s || (!is_terminal(s.status) && s2.status == SettlementStatus::Expired && same_terms(s, s2))
        }
        &&& exists|k: int| 0 <= k <= prev.state.expiration_queue@.len()
            && self.state.expiration_queue@ == prev.state.expiration_queue@.skip(k)
            && (forall|j: int| 0 <= j < k ==> (#[trigger] prev.state.expiration_queue@[j]).0 <= now)
            && forall|i: int| 0 <= i < prev.state.settlements@.len()
                && #[trigger] self.state.settlements@[i] != prev.state.settlements@[i]
                ==> exists|j: int| 0 <= j < k && prev.state.expiration_queue@[j].1 == i + 1
        &&& n < EXPIRY_BATCH ==> self.state.expiration_queue@.len() == 0
            || self.state.expiration_queue@[0].0 > now
        // only settlements past their deadline change
        &&& forall|i: int| 0 <= i < prev.state.settlements@.len()
            && #[trigger] self.state.settlements@[i] != prev.state.settlements@[i] ==> prev.state.settlements@[i].expires_at <= now
        &&& n == changed_count(prev.state.settlements@, self.state.settlements@, prev.state.settlements@.len() as int)
        &&& forall|h: Holder, b: Seq<char>| #[trigger] self.state.ledger.balance(h, b)
            == prev.state.ledger.balance(h, b) + refunds(prev.state.settlements@, self.state.settlements@, h, b,
                prev.state.settlements@.len() as int)
        &&& self.state.ledger.same_flows(&prev.state.ledger)
        &&& self.state.next_settlement_id == prev.state.next_settlement_id
    }

    /// Expires, oldest first, the settlements in the expiration queue whose
    /// deadline has passed, returning their escrows to their owners; at most
    /// `EXPIRY_BATCH` of them per call. Returns how many it expired.
    pub fn process_expired_settlements(&mut self, now: Timestamp) -> (r: u64)
        requires
            old(self).state.wf(),
        ensures
            final(self).state.wf(),
            final(self).expiry_processed(old(self), now, r as int),
    {
        let ghost old_state = self.state;
        let ghost old_q = self.state.expiration_queue@;
        let ghost mut k: int = 0;
        let mut processed: u64 = 0;
        let mut done = false;
        proof {
            lemma_nothing_changed(old_state.settlements@, old_state.settlements@.len() as int);
        }
        while processed < EXPIRY_BATCH && !done
            invariant
                self.state.wf(),
                processed <= EXPIRY_BATCH,
                0 <= k <= old_q.len(),
                self.state.expiration_queue@ == old_q.skip(k),
                forall|j: int| 0 <= j < k ==> (#[trigger] old_q[j]).0 <= now,
                done ==> self.state.expiration_queue@.len() == 0 || self.state.expiration_queue@[0].0 > now,
                self.state.settlements@.len() == old_state.settlements@.len(),
                forall|i: int| 0 <= i < old_state.settlements@.len() ==> {
                    let s = old_state.settlements@[i];
                    let s2 = #[trigger] self.state.settlements@[i];
                    s2 == s || (!is_terminal(s.status) && s2.status == SettlementStatus::Expired && same_terms(s, s2))
                },
                forall|i: int| 0 <= i < old_state.settlements@.len() && #[trigger] self.state.settlements@[i] != old_state.settlements@[i]
                    ==> exists|j: int| 0 <= j < k && old_q[j].1 == i + 1,
                processed == changed_count(old_state.settlements@, self.state.settlements@, old_state.settlements@.len() as int),
                forall|h: Holder, b: Seq<char>| #[trigger] self.state.ledger.balance(h, b)
                    == old_state.ledger.balance(h, b) + refunds(old_state.settlements@, self.state.settlements@, h, b,
                        old_state.settlements@.len() as int),
                self.state.ledger.same_flows(&old_state.ledger),
            decreases EXPIRY_BATCH - processed + self.state.expiration_queue@.len() + if done { 0int } else { 1int },
        {
            if self.state.expiration_queue.len() == 0 {
                done = true;
            } else {
                let (expires_at, sid) = self.state.expiration_queue[0];
                if expires_at > now {
                    done = true;
                } else {
                    let ghost before = self.state;
                    self.state.expiration_queue.remove(0);
                    proof {
                        assert(self.state.expiration_queue@ =~= old_q.skip(k + 1));
                        assert(self.state.expiration_queue@ =~= before.expiration_queue@.subrange(1, before.expiration_queue@.len() as int));
                        lemma_queue_tail(before.expiration_queue@, before.settlements@);
                        assert(old_q[k] == before.expiration_queue@[0]);
                        k = k + 1;
                    }
                    let ghost mid = self.state;
                    if sid >= 1 && sid < self.state.next_settlement_id {
                        let idx = slot(sid, self.state.settlements.len());
                        let status = self.state.settlements[idx].status;
                        if !(status == SettlementStatus::Completed || status == SettlementStatus::Failed
                            || status == SettlementStatus::Refunded || status == SettlementStatus::Expired
                            || status == SettlementStatus::Cancelled) {
                            self.close_core(sid, SettlementStatus::Expired);
                            self.state.stats.failed_settlements = self.state.stats.failed_settlements.saturating_add(1);
                            processed = processed + 1;
                            proof {
                                assert forall|i: int| 0 <= i < old_state.settlements@.len() implies {
                                    let s = old_state.settlements@[i];
                                    let s2 = #[trigger] self.state.settlements@[i];
                                    s2 == s || (!is_terminal(s.status) && s2.status == SettlementStatus::Expired && same_terms(s, s2))
                                } by {
                                    let s = old_state.settlements@[i];
                                    let sm = mid.settlements@[i];
                                    assert(sm == s || (!is_terminal(s.status) && sm.status == SettlementStatus::Expired && same_terms(s, sm)));
                                }
                                assert forall|b: Seq<char>| #[trigger] self.state.ledger.deposits(b) == old_state.ledger.deposits(b) by {
                                    assert(mid.ledger.deposits(b) == old_state.ledger.deposits(b));
                                }
                                assert forall|b: Seq<char>| #[trigger] self.state.ledger.withdrawals(b) == old_state.ledger.withdrawals(b) by {
                                    assert(mid.ledger.withdrawals(b) == old_state.ledger.withdrawals(b));
                                }
                                let n = old_state.settlements@.len() as int;
                                let x = self.state.settlements@[idx as int];
                                assert(mid.settlements@[idx as int] == old_state.settlements@[idx as int]);
                                assert(x != old_state.settlements@[idx as int]);
                                assert(self.state.settlements@ =~= mid.settlements@.update(idx as int, x));
                                assert forall|h: Holder, b: Seq<char>| #[trigger] self.state.ledger.balance(h, b)
                                    == old_state.ledger.balance(h, b) + refunds(old_state.settlements@, self.state.settlements@, h, b, n) by {
                                    lemma_one_more_changed(old_state.settlements@, mid.settlements@, idx as int, x, h, b, n);
                                    assert(mid.ledger.balance(h, b) == old_state.ledger.balance(h, b) + refunds(old_state.settlements@, mid.settlements@, h, b, n));
                                }
                                lemma_one_more_changed(old_state.settlements@, mid.settlements@, idx as int, x, Holder::Fees, Seq::empty(), n);
                                assert forall|i: int| 0 <= i < old_state.settlements@.len() && #[trigger] self.state.settlements@[i] != old_state.settlements@[i]
                                    implies exists|j: int| 0 <= j < k && old_q[j].1 == i + 1 by {
                                    if i == idx {
                                        assert(old_q[k - 1].1 == i + 1);
                                    } else {
                                        assert(self.state.settlements@[i] == mid.settlements@[i]);
                                        let j0 = choose|j: int| 0 <= j < k - 1 && old_q[j].1 == i + 1;
                                        assert(0 <= j0 < k && old_q[j0].1 == i + 1);
                                    }
                                }
                            }
                        }
                    }
                }
            }
        }
        proof {
            let kk = choose|kk: int| 0 <= kk <= old_q.len() && self.state.expiration_queue@ == old_q.skip(kk)
                && (forall|j: int| 0 <= j < kk ==> (#[trigger] old_q[j]).0 <= now)
                && forall|i: int| 0 <= i < old_state.settlements@.len()
                    && #[trigger] self.state.settlements@[i] != old_state.settlements@[i]
                    ==> exists|j: int| 0 <= j < kk && old_q[j].1 == i + 1;
            assert forall|i: int| 0 <= i < old_state.settlements@.len()
                && #[trigger] self.state.settlements@[i] != old_state.settlements@[i] implies old_state.settlements@[i].expires_at <= now by {
                let j = choose|j: int| 0 <= j < kk && old_q[j].1 == i + 1;
                assert(old_q[j].0 <= now);
                assert(old_q[j].0 == old_state.settlements@[old_q[j].1 - 1].expires_at);
            }
        }
        processed
    }

    /// `self` is `prev` with `amount` of `asset` added to the free balance of `caller`.
    pub open spec fn deposited(&self, prev: &Self, caller: Account, asset: Seq<char>, amount: Amount) -> bool {
        self.state.ledger.changed(&prev.state.ledger, asset, Holder::Free(caller), amount as int)
        && self.state.ledger.flows(&prev.state.ledger, asset, amount as int, 0)
        && self.state.settlements@ == prev.state.settlements@
    }

    /// Adds `amount` of `asset` to the caller's free balance.
    pub fn deposit(&mut self, caller: Account, asset: String, amount: Amount) -> (r: Result<(), SettlementError>)
        requires
            old(self).state.wf(),
        ensures
            final(self).state.wf(),
            r is Err <==> old(self).state.ledger.supply(asset@) + amount > u128::MAX,
            r is Err ==> r == Err::<(), SettlementError>(SettlementError::Overflow) && final(self).state.same_as(&old(self).state),
            r is Ok ==> final(self).deposited(old(self), caller, asset@, amount),
    {
        let ghost old_state = self.state;
        match self.state.ledger.credit(caller, &asset, amount) {
            Ok(()) => {
                proof {
                    let st = self.state;
                    assert forall|k: SettlementId, acct: Account, a: Seq<char>| #[trigger]
                        st.ledger.balance(Holder::Escrowed(k, acct), a) == st.escrow_expected(k as int, acct, a) by {
                        assert(old_state.ledger.balance(Holder::Escrowed(k, acct), a) == old_state.escrow_expected(k as int, acct, a));
                    }
                }
                Ok(())
            },
            Err(_) => Err(SettlementError::Overflow),
        }
    }

    /// `self` is `prev` with `amount` of `asset` taken out of the free balance of `caller`.
    pub open spec fn withdrew(&self, prev: &Self, caller: Account, asset: Seq<char>, amount: Amount) -> bool {
        self.state.ledger.changed(&prev.state.ledger, asset, Holder::Free(caller), -amount)
        && self.state.ledger.flows(&prev.state.ledger, asset, 0, amount as int)
        && self.state.settlements@ == prev.state.settlements@
    }

    /// Takes `amount` of `asset` out of the caller's free balance.
    pub fn withdraw(&mut self, caller: Account, asset: String, amount: Amount) -> (r: Result<(), SettlementError>)
        requires
            old(self).state.wf(),
        ensures
            final(self).state.wf(),
            r is Err <==> old(self).state.ledger.free(caller, asset@) < amount,
            r is Err ==> r == Err::<(), SettlementError>(SettlementError::InsufficientBalance {
                required: amount,
                available: old(self).state.ledger.free(caller, asset@) as u128,
            }) && final(self).state.same_as(&old(self).state),
            r is Ok ==> final(self).withdrew(old(self), caller, asset@, amount),
    {
        let ghost old_state = self.state;
        match self.state.ledger.debit(caller, &asset, amount) {
            Ok(()) => {
                proof {
                    let st = self.state;
                    assert forall|k: SettlementId, acct: Account, a: Seq<char>| #[trigger]
                        st.ledger.balance(Holder::Escrowed(k, acct), a) == st.escrow_expected(k as int, acct, a) by {
                        assert(old_state.ledger.balance(Holder::Escrowed(k, acct), a) == old_state.escrow_expected(k as int, acct, a));
                    }
                }
                Ok(())
            },
            Err(LedgerError::InsufficientBalance { required, available }) => Err(SettlementError::InsufficientBalance { required, available }),
            Err(LedgerError::Overflow) => Err(SettlementError::Overflow),
        }
    }
}

/// Executing a settlement twice completes it once: on the state that an
/// execution left (the one `confirm_escrow` runs as soon as both sides are
/// escrowed, or `execute_settlement`), a second one fails with `InvalidStatus`,
/// whatever the time, and by the contract of `execute_settlement` changes nothing.
pub proof fn lemma_execute_once(
    before: &SettlementContract,
    after: &SettlementContract,
    sid: SettlementId,
    now: Timestamp,
    later: Timestamp,
)
    requires
        before.state.has(sid as int),
        after.executed(before, sid, now),
    ensures
        after.execute_outcome(later, sid) == Err::<(), SettlementError>(SettlementError::InvalidStatus {
            expected: SettlementStatus::FullyEscrowed,
            actual: SettlementStatus::Completed,
        }),
{
}

/// A request to the settlement engine.
#[derive(Debug)]
pub enum Operation {
    InitiateSettlement {
        trade_id: TradeId,
        maker: Account,
        taker: Account,
        maker_asset: String,
        taker_asset: String,
        maker_amount: Amount,
        taker_amount: Amount,
        timeout_seconds: u64,
    },
    ConfirmEscrow { settlement_id: SettlementId },
    ExecuteSettlement { settlement_id: SettlementId },
    CancelSettlement { settlement_id: SettlementId, reason: String },
    ClaimRefund { settlement_id: SettlementId },
    ProcessExpiredSettlements,
    Deposit { asset: String, amount: Amount },
    Withdraw { asset: String, amount: Amount },
    ConfigureBridge { chain_id: String, config: BridgeConfig },
    DisableBridge { chain_id: String },
    ProcessBridgeDeposit { chain_id: String, tx_hash: String, user: Account, asset: String, amount: Amount, confirmations: u64 },
    InitiateBridgeWithdrawal { chain_id: String, asset: String, amount: Amount, destination_address: String },
    CompleteBridgeWithdrawal { transfer_id: u64, tx_hash: String, success: bool },
}

/// What happened on a bridge, as reported to the settlement engine.
#[derive(Clone, Copy, Debug, PartialEq, Eq, Structural)]
pub enum BridgeEventType {
    DepositDetected,
    DepositConfirmed,
    WithdrawalInitiated,
    WithdrawalCompleted,
    WithdrawalFailed,
}

/// A message between the settlement engine and the other components.
#[derive(Debug)]
pub enum Message {
    /// The order book asks for a trade to be settled.
    SettlementRequest {
        trade_id: TradeId,
        maker: Account,
        taker: Account,
        maker_asset: String,
        taker_asset: String,
        maker_amount: Amount,
        taker_amount: Amount,
        timeout_seconds: u64,
    },
    EscrowConfirmation { settlement_id: SettlementId, party: Account, confirmed: bool, amount: Amount },
    /// The engine reports a finished settlement.
    SettlementComplete { settlement_id: SettlementId, success: bool, failure_reason: Option<String> },
    BridgeEvent { chain_id: String, event_type: BridgeEventType, transfer_id: u64, data: Vec<u8> },
    RefundProcessed { settlement_id: SettlementId, party: Account, amount: Amount, asset: String },
}

/// `r` without its success value.
pub open spec fn unit_of<T>(r: Result<T, SettlementError>) -> Result<(), SettlementError> {
    match r {
        Ok(_) => Ok(()),
        Err(e) => Err(e),
    }
}

impl SettlementContract {
    /// Carries out one request from `caller` at time `now`.
    pub fn execute_operation(&mut self, caller: Account, now: Timestamp, operation: Operation) -> (r: Result<(), SettlementError>)
        requires
            old(self).state.wf(),
            old(self).state.settlements@.len() + 1 < u64::MAX,
            old(self).state.bridge_transfers@.len() + 1 < u64::MAX,
        ensures
            final(self).state.wf(),
            match operation {
                Operation::InitiateSettlement { trade_id, maker, taker, maker_asset, taker_asset, maker_amount, taker_amount, timeout_seconds } =>
                    r is Ok && final(self).opened(old(self), now, trade_id, maker, taker, maker_asset@, taker_asset@, maker_amount,
                        taker_amount, timeout_seconds),
                Operation::ConfirmEscrow { settlement_id } => {
                    &&& r == old(self).confirm_outcome(caller, now, settlement_id)
                    &&& r is Ok ==> final(self).escrow_confirmed(old(self), caller, now, settlement_id)
                },
                Operation::ExecuteSettlement { settlement_id } => {
                    &&& r == old(self).execute_outcome(now, settlement_id)
                    &&& r is Ok ==> final(self).executed(old(self), settlement_id, now)
                },
                Operation::CancelSettlement { settlement_id, reason } => {
                    &&& r == old(self).cancel_outcome(caller, settlement_id)
                    &&& r is Ok ==> final(self).settlement_cancelled(old(self), caller, settlement_id, reason)
                },
                Operation::ClaimRefund { settlement_id } => {
                    &&& r == old(self).claim_outcome(caller, now, settlement_id)
                    &&& r is Ok ==> final(self).refund_claimed(old(self), caller, now, settlement_id)
                },
                Operation::ProcessExpiredSettlements => r is Ok && exists|n: int| final(self).expiry_processed(old(self), now, n),
                Operation::Deposit { asset, amount } => {
                    &&& r is Err <==> old(self).state.ledger.supply(asset@) + amount > u128::MAX
                    &&& r is Ok ==> final(self).deposited(old(self), caller, asset@, amount)
                },
                Operation::Withdraw { asset, amount } => {
                    &&& r is Err <==> old(self).state.ledger.free(caller, asset@) < amount
                    &&& r is Ok ==> final(self).withdrew(old(self), caller, asset@, amount)
                },
                Operation::ConfigureBridge { chain_id, config } => r is Ok && has_bridge(final(self).state.bridge_configs@, chain_id@)
                    && bridge_cfg(final(self).state.bridge_configs@, chain_id@) == (BridgeConfig { chain_id, ..config }),
                Operation::DisableBridge { chain_id } => {
                    &&& r is Err <==> !has_bridge(old(self).state.bridge_configs@, chain_id@)
                    &&& r is Ok ==> !bridge_cfg(final(self).state.bridge_configs@, chain_id@).is_active
                },
                Operation::ProcessBridgeDeposit { chain_id, tx_hash, user, asset, amount, confirmations } => {
                    &&& r == unit_of(old(self).bridge_deposit_outcome(chain_id@, tx_hash@, asset@, amount, confirmations))
                    &&& r is Ok ==> final(self).bridge_deposit_recorded(old(self), old(self).state.next_transfer_id, now, chain_id@,
                        tx_hash, user, asset@, amount, confirmations)
                },
                Operation::InitiateBridgeWithdrawal { chain_id, asset, amount, .. } => {
                    &&& r == unit_of(old(self).bridge_withdrawal_outcome(caller, chain_id@, asset@, amount))
                    &&& r is Ok ==> final(self).bridge_withdrawal_started(old(self), old(self).state.next_transfer_id, caller, asset@, amount)
                },
                Operation::CompleteBridgeWithdrawal { transfer_id, tx_hash, success } => {
                    &&& r == old(self).bridge_completion_outcome(transfer_id, success)
                    &&& r is Ok ==> final(self).bridge_withdrawal_ended(old(self), now, transfer_id, tx_hash, success)
                },
            },
            r is Err ==> final(self).state.same_as(&old(self).state),
    {
        match operation {
            Operation::InitiateSettlement { trade_id, maker, taker, maker_asset, taker_asset, maker_amount, taker_amount, timeout_seconds } => {
                self.initiate_settlement(now, trade_id, maker, taker, maker_asset, taker_asset, maker_amount, taker_amount, timeout_seconds);
                Ok(())
            },
            Operation::ConfirmEscrow { settlement_id } => self.confirm_escrow(caller, now, settlement_id),
            Operation::ExecuteSettlement { settlement_id } => self.execute_settlement(now, settlement_id),
            Operation::CancelSettlement { settlement_id, reason } => self.cancel_settlement(caller, settlement_id, reason),
            Operation::ClaimRefund { settlement_id } => self.claim_refund(caller, now, settlement_id),
            Operation::ProcessExpiredSettlements => {
                self.process_expired_settlements(now);
                Ok(())
            },
            Operation::Deposit { asset, amount } => self.deposit(caller, asset, amount),
            Operation::Withdraw { asset, amount } => self.withdraw(caller, asset, amount),
            Operation::ConfigureBridge { chain_id, config } => {
                self.configure_bridge(chain_id, config);
                Ok(())
            },
            Operation::DisableBridge { chain_id } => self.disable_bridge(chain_id),
            Operation::ProcessBridgeDeposit { chain_id, tx_hash, user, asset, amount, confirmations } => {
                match self.process_bridge_deposit(now, chain_id, tx_hash, user, asset, amount, confirmations) {
                    Ok(_) => Ok(()),
                    Err(e) => Err(e),
                }
            },
            Operation::InitiateBridgeWithdrawal { chain_id, asset, amount, destination_address } => {
                match self.initiate_bridge_withdrawal(caller, now, chain_id, asset, amount, destination_address) {
                    Ok(_) => Ok(()),
                    Err(e) => Err(e),
                }
            },
            Operation::CompleteBridgeWithdrawal { transfer_id, tx_hash, success } => self.complete_bridge_withdrawal(now, transfer_id, tx_hash, success),
        }
    }

    /// Handles a message at time `now`: a settlement request opens a
    /// settlement; the other messages are notifications and change nothing.
    pub fn execute_message(&mut self, now: Timestamp, message: Message)
        requires
            old(self).state.wf(),
            old(self).state.settlements@.len() + 1 < u64::MAX,
        ensures
            final(self).state.wf(),
            match message {
                Message::SettlementRequest { trade_id, maker, taker, maker_asset, taker_asset, maker_amount, taker_amount, timeout_seconds } =>
                    final(self).opened(old(self), now, trade_id, maker, taker, maker_asset@, taker_asset@, maker_amount, taker_amount, timeout_seconds),
                _ => final(self).state.same_as(&old(self).state),
            },
    {
        match message {
            Message::SettlementRequest { trade_id, maker, taker, maker_asset, taker_asset, maker_amount, taker_amount, timeout_seconds } => {
                self.initiate_settlement(now, trade_id, maker, taker, maker_asset, taker_asset, maker_amount, taker_amount, timeout_seconds);
            },
            Message::EscrowConfirmation { .. } => {},
            Message::SettlementComplete { .. } => {},
            Message::BridgeEvent { .. } => {},
            Message::RefundProcessed { .. } => {},
        }
    }
}

/// What the settlements among the first `n` that differ between `a` and `c`
/// return, by `refund_delta`, to the balance of `(h, b)`.
pub open spec fn refunds(a: Seq<Settlement>, c: Seq<Settlement>, h: Holder, b: Seq<char>, n: int) -> int
    decreases n,
{
    if n <= 0 {
        0
    } else {
        refunds(a, c, h, b, n - 1) + if a[n - 1] != c[n - 1] {
            refund_delta(a[n - 1], h, b)
        } else {
            0
        }
    }
}

/// How many of the first `n` settlements differ between `a` and `c`.
pub open spec fn changed_count(a: Seq<Settlement>, c: Seq<Settlement>, n: int) -> int
    decreases n,
{
    if n <= 0 {
        0
    } else {
        changed_count(a, c, n - 1) + if a[n - 1] != c[n - 1] {
            1int
        } else {
            0
        }
    }
}

proof fn lemma_nothing_changed(a: Seq<Settlement>, n: int)
    ensures
        changed_count(a, a, n) == 0,
        forall|h: Holder, b: Seq<char>| #[trigger] refunds(a, a, h, b, n) == 0,
    decreases n,
{
    if n > 0 {
        lemma_nothing_changed(a, n - 1);
        assert forall|h: Holder, b: Seq<char>| #[trigger] refunds(a, a, h, b, n) == 0 by {
            assert(refunds(a, a, h, b, n - 1) == 0);
        }
    }
}

proof fn lemma_one_more_changed(a: Seq<Settlement>, c: Seq<Settlement>, idx: int, x: Settlement, h: Holder, b: Seq<char>, n: int)
    requires
        0 <= idx < c.len(),
        c.len() == a.len(),
        n <= a.len(),
        c[idx] == a[idx],
        x != a[idx],
    ensures
        refunds(a, c.update(idx, x), h, b, n) == refunds(a, c, h, b, n) + if idx < n { refund_delta(a[idx], h, b) } else { 0 },
        changed_count(a, c.update(idx, x), n) == changed_count(a, c, n) + if idx < n { 1int } else { 0 },
    decreases n,
{
    if n > 0 {
        lemma_one_more_changed(a, c, idx, x, h, b, n - 1);
        assert(c.update(idx, x)[n - 1] == if n - 1 == idx { x } else { c[n - 1] });
    }
}

/// Conservation in escrow: a settlement that completed, was refunded, was
/// cancelled or expired holds nothing in escrow, for any account and asset.
pub proof fn lemma_finished_settlement_holds_nothing(
    st: &SettlementState,
    sid: SettlementId,
    acct: Account,
    a: Seq<char>,
)
    requires
        st.wf(),
        st.has(sid as int),
        is_terminal(st.get(sid as int).status),
    ensures
        st.ledger.escrowed(sid, acct, a) == 0,
{
    assert(st.ledger.balance(Holder::Escrowed(sid, acct), a) == st.escrow_expected(sid as int, acct, a));
}

} // verus!
