//! The cross-chain bridge: inbound deposits confirmed by relayers, outbound
//! withdrawals approved by a weighted validator quorum, with fees, expiry and
//! refunds.
use crate::ledger::{delta, BalanceLedger, Holder};
use crate::sums::{lemma_elem_le_sum, lemma_sum_push, lemma_sum_remove, lemma_sum_update, sum};
use crate::types::{deadline, spec_deadline, Account, Amount, Timestamp, TransferId};
use vstd::prelude::*;

verus! {

/// External chains the bridge can reach.
#[derive(Clone, Copy, Debug, PartialEq, Eq, Structural, Hash)]
pub enum ExternalChain {
    Ethereum,
    Bitcoin,
    Solana,
    Avalanche,
    Polygon,
    Arbitrum,
    Optimism,
    BSC,
    Custom(u64),
}

pub open spec fn spec_chain_id(c: ExternalChain) -> u64 {
    match c {
        ExternalChain::Ethereum => 1,
        ExternalChain::Bitcoin => 0,
        ExternalChain::Solana => 501,
        ExternalChain::Avalanche => 43114,
        ExternalChain::Polygon => 137,
        ExternalChain::Arbitrum => 42161,
        ExternalChain::Optimism => 10,
        ExternalChain::BSC => 56,
        ExternalChain::Custom(id) => id,
    }
}

pub open spec fn spec_required_confirmations(c: ExternalChain) -> u64 {
    match c {
        ExternalChain::Ethereum => 12,
        ExternalChain::Bitcoin => 6,
        ExternalChain::Solana => 32,
        ExternalChain::Avalanche => 1,
        ExternalChain::Polygon => 256,
        ExternalChain::Arbitrum => 1,
        ExternalChain::Optimism => 1,
        ExternalChain::BSC => 15,
        ExternalChain::Custom(_) => 12,
    }
}

pub open spec fn spec_chain_name(c: ExternalChain) -> Seq<char> {
    match c {
        ExternalChain::Ethereum => "Ethereum"@,
        ExternalChain::Bitcoin => "Bitcoin"@,
        ExternalChain::Solana => "Solana"@,
        ExternalChain::Avalanche => "Avalanche"@,
        ExternalChain::Polygon => "Polygon"@,
        ExternalChain::Arbitrum => "Arbitrum"@,
        ExternalChain::Optimism => "Optimism"@,
        ExternalChain::BSC => "BNB Smart Chain"@,
        ExternalChain::Custom(_) => "Custom Chain"@,
    }
}

impl ExternalChain {
    /// The chain's numeric identifier (EIP-155 where there is one).
    pub fn chain_id(&self) -> (r: u64)
        ensures
            r == spec_chain_id(*self),
    {
        match self {
            ExternalChain::Ethereum => 1,
            ExternalChain::Bitcoin => 0,
            ExternalChain::Solana => 501,
            ExternalChain::Avalanche => 43114,
            ExternalChain::Polygon => 137,
            ExternalChain::Arbitrum => 42161,
            ExternalChain::Optimism => 10,
            ExternalChain::BSC => 56,
            ExternalChain::Custom(id) => *id,
        }
    }

    /// The chain's display name.
    pub fn name(&self) -> (r: &'static str)
        ensures
            r@ == spec_chain_name(*self),
    {
        match self {
            ExternalChain::Ethereum => "Ethereum",
            ExternalChain::Bitcoin => "Bitcoin",
            ExternalChain::Solana => "Solana",
            ExternalChain::Avalanche => "Avalanche",
            ExternalChain::Polygon => "Polygon",
            ExternalChain::Arbitrum => "Arbitrum",
            ExternalChain::Optimism => "Optimism",
            ExternalChain::BSC => "BNB Smart Chain",
            ExternalChain::Custom(_) => "Custom Chain",
        }
    }

    /// Block confirmations after which a deposit on this chain counts as final.
    pub fn required_confirmations(&self) -> (r: u64)
        ensures
            r == spec_required_confirmations(*self),
    {
        match self {
            ExternalChain::Ethereum => 12,
            ExternalChain::Bitcoin => 6,
            ExternalChain::Solana => 32,
            ExternalChain::Avalanche => 1,
            ExternalChain::Polygon => 256,
            ExternalChain::Arbitrum => 1,
            ExternalChain::Optimism => 1,
            ExternalChain::BSC => 15,
            ExternalChain::Custom(_) => 12,
        }
    }
}

#[derive(Clone, Copy, Debug, PartialEq, Eq, Structural)]
pub enum TransferStatus {
    /// Initiated, waiting for processing.
    Pending,
    /// Waiting for block confirmations on the source chain.
    Confirming,
    /// Waiting for validators to approve.
    AwaitingApproval,
    /// Approved by validators, ready to execute.
    Approved,
    /// Handed to the relayer for the destination chain.
    Executing,
    Completed,
    Failed,
    Refunded,
    Expired,
}

#[derive(Clone, Copy, Debug, PartialEq, Eq, Structural)]
pub enum TransferDirection {
    /// From an external chain into the ledger (a deposit).
    Inbound,
    /// From the ledger to an external chain (a withdrawal).
    Outbound,
}

#[derive(Debug)]
pub struct ValidatorApproval {
    pub validator: Account,
    pub approved: bool,
    pub signature: Vec<u8>,
    pub timestamp: Timestamp,
}

#[derive(Debug)]
pub struct BridgeTransfer {
    pub id: TransferId,
    pub direction: TransferDirection,
    pub source_chain: ExternalChain,
    pub destination_chain: Option<ExternalChain>,
    pub user: Account,
    pub external_address: String,
    pub asset: String,
    pub amount: Amount,
    pub fee: Amount,
    pub net_amount: Amount,
    pub source_tx_hash: Option<String>,
    pub destination_tx_hash: Option<String>,
    pub status: TransferStatus,
    pub confirmations: u64,
    pub required_confirmations: u64,
    pub created_at: Timestamp,
    pub completed_at: Option<Timestamp>,
    pub expires_at: Timestamp,
    pub approvals: Vec<ValidatorApproval>,
    pub approval_threshold: u32,
    pub retry_count: u32,
}

/// How an asset of the ledger maps onto an asset of an external chain.
#[derive(Debug)]
pub struct AssetMapping {
    pub local_asset: String,
    pub external_asset: String,
    pub external_contract_address: Option<String>,
    pub decimals_local: u8,
    pub decimals_external: u8,
    pub is_native: bool,
}

#[derive(Debug)]
pub struct ChainConfig {
    pub chain: ExternalChain,
    pub is_enabled: bool,
    pub bridge_contract_address: String,
    pub supported_assets: Vec<AssetMapping>,
    pub min_transfer_amount: Amount,
    pub max_transfer_amount: Amount,
    pub base_fee: Amount,
    pub fee_percentage_bps: u64,
    pub required_confirmations: u64,
    pub estimated_time_seconds: u64,
}

#[derive(Debug)]
pub struct ValidatorConfig {
    pub address: Account,
    pub public_key: Vec<u8>,
    pub is_active: bool,
    pub weight: u32,
    pub registered_at: Timestamp,
}

#[derive(Clone, Copy, Debug, PartialEq, Eq, Structural)]
pub enum BridgeError {
    TransferNotFound { transfer_id: TransferId },
    ChainNotConfigured { chain: ExternalChain },
    ChainDisabled { chain: ExternalChain },
    AssetNotSupported { chain: ExternalChain },
    BelowMinimum { amount: Amount, minimum: Amount },
    AboveMaximum { amount: Amount, maximum: Amount },
    InsufficientBalance { required: Amount, available: Amount },
    AlreadyProcessed,
    Expired,
    InvalidStatus { status: TransferStatus },
    /// The caller may not act on this transfer.
    Unauthorized,
    ValidatorNotFound { address: Account },
    /// The validator is registered but not active.
    ValidatorInactive { address: Account },
    AlreadyApproved,
    Paused,
    DuplicateDeposit,
    /// The destination address is empty.
    InvalidAddress,
    /// A fee or a balance would no longer fit in its type.
    Overflow,
}

#[derive(Clone, Copy, Debug, PartialEq, Eq, Structural, Default)]
pub struct BridgeStats {
    pub total_inbound_transfers: u64,
    pub total_outbound_transfers: u64,
    pub total_inbound_volume: Amount,
    pub total_outbound_volume: Amount,
    pub total_fees_collected: Amount,
    pub pending_transfers: u64,
    pub failed_transfers: u64,
}

/// Everything the bridge keeps.
pub struct BridgeState {
    /// The id the next transfer gets.
    pub next_transfer_id: TransferId,
    /// All transfers; the one with id `k` stands at index `k - 1`.
    pub transfers: Vec<BridgeTransfer>,
    /// `(expires_at, id)` of the transfers that may expire, in order of creation.
    pub expiration_queue: Vec<(Timestamp, TransferId)>,
    /// One configuration per chain id.
    pub chain_configs: Vec<ChainConfig>,
    /// One configuration per validator address.
    pub validators: Vec<ValidatorConfig>,
    /// The sum of the weights of all registered validators, active or not.
    pub total_validator_weight: u32,
    /// Share of the total weight, in percent, that approves a transfer.
    pub approval_threshold_percentage: u32,
    pub ledger: BalanceLedger,
    pub stats: BridgeStats,
    pub is_paused: bool,
    /// Messages for the relayers, oldest first.
    pub outbox: Vec<Message>,
}

/// The bridge.
pub struct BridgeContract {
    pub state: BridgeState,
}

/// Seconds after which a transfer expires.
pub const TRANSFER_TIMEOUT_SECONDS: u64 = 86_400;

/// Default share of the total validator weight, in percent, that approves a transfer.
pub const DEFAULT_APPROVAL_PERCENTAGE: u32 = 67;

/// Most transfers that one call of `process_expired_transfers` expires.
pub const EXPIRY_BATCH: u64 = 10;

/// The fee on a transfer of `amount`: a base fee plus a share in basis points.
pub open spec fn spec_fee(amount: Amount, base_fee: Amount, bps: u64) -> int {
    base_fee + (amount * bps) / 10000
}

/// `amount - fee`, or zero when the fee is larger.
pub open spec fn spec_net(amount: Amount, fee: int) -> int {
    if fee > amount {
        0
    } else {
        amount - fee
    }
}

/// The fee and the net amount of a transfer add up to its amount, unless the fee
/// is larger than the amount, in which case nothing is left.
pub open spec fn fee_split_ok(t: BridgeTransfer) -> bool {
    (t.net_amount + t.fee == t.amount) || (t.fee > t.amount && t.net_amount == 0)
}

pub open spec fn approvals_unique(aps: Seq<ValidatorApproval>) -> bool {
    forall|i: int, j: int|
        0 <= i < j < aps.len() ==> #[trigger] aps[i].validator != #[trigger] aps[j].validator
}

/// The source transaction of inbound transfer `t`, if it is one.
pub open spec fn inbound_hash(t: BridgeTransfer) -> Option<Seq<char>> {
    if t.direction == TransferDirection::Inbound && t.source_tx_hash is Some {
        Some(t.source_tx_hash->Some_0@)
    } else {
        None
    }
}

pub open spec fn chains_unique(s: Seq<ChainConfig>) -> bool {
    forall|i: int, j: int|
        0 <= i < j < s.len() ==> spec_chain_id(#[trigger] s[i].chain) != spec_chain_id(
            #[trigger] s[j].chain,
        )
}

pub open spec fn validators_unique(s: Seq<ValidatorConfig>) -> bool {
    forall|i: int, j: int|
        0 <= i < j < s.len() ==> #[trigger] s[i].address != #[trigger] s[j].address
}

pub open spec fn weight_terms(s: Seq<ValidatorConfig>) -> Seq<int> {
    s.map_values(|v: ValidatorConfig| v.weight as int)
}

pub open spec fn has_chain(s: Seq<ChainConfig>, cid: u64) -> bool {
    exists|i: int| 0 <= i < s.len() && spec_chain_id(#[trigger] s[i].chain) == cid
}

/// The configuration of the chain with id `cid`; meaningful where `has_chain`.
pub open spec fn chain_cfg(s: Seq<ChainConfig>, cid: u64) -> ChainConfig {
    s[choose|i: int| 0 <= i < s.len() && spec_chain_id(#[trigger] s[i].chain) == cid]
}

pub open spec fn has_validator(s: Seq<ValidatorConfig>, a: Account) -> bool {
    exists|i: int| 0 <= i < s.len() && #[trigger] s[i].address == a
}

/// The configuration of validator `a`; meaningful where `has_validator`.
pub open spec fn validator_cfg(s: Seq<ValidatorConfig>, a: Account) -> ValidatorConfig {
    s[choose|i: int| 0 <= i < s.len() && #[trigger] s[i].address == a]
}

/// What the approval of validator `a` weighs: its weight while it is registered
/// and active, else nothing.
pub open spec fn weight_of(s: Seq<ValidatorConfig>, a: Account) -> int {
    if has_validator(s, a) && validator_cfg(s, a).is_active {
        validator_cfg(s, a).weight as int
    } else {
        0
    }
}

pub open spec fn approval_terms(s: Seq<ValidatorConfig>, aps: Seq<ValidatorApproval>) -> Seq<int> {
    aps.map_values(|ap: ValidatorApproval| weight_of(s, ap.validator))
}

/// The weight of the active validators that approved.
pub open spec fn approval_weight(s: Seq<ValidatorConfig>, aps: Seq<ValidatorApproval>) -> int {
    sum(approval_terms(s, aps))
}

/// Whether asset `a` is among those that configuration `c` supports.
pub open spec fn supports(c: ChainConfig, a: Seq<char>) -> bool {
    exists|i: int|
        0 <= i < c.supported_assets@.len() && (#[trigger] c.supported_assets@[i]).local_asset@
            == a
}

/// The weight that approves a transfer.
pub open spec fn spec_required_weight(total: u32, pct: u32) -> int {
    (total * pct) / 100
}

/// Transfer ids follow positions, every fee split adds up, no validator
/// approves a transfer twice, and no two inbound transfers share a source
/// transaction.
pub open spec fn transfers_wf(s: Seq<BridgeTransfer>) -> bool {
    &&& forall|i: int| 0 <= i < s.len() ==> #[trigger] s[i].id == i + 1
    &&& forall|i: int| 0 <= i < s.len() ==> fee_split_ok(#[trigger] s[i])
    &&& forall|i: int| 0 <= i < s.len() ==> approvals_unique(#[trigger] s[i].approvals@)
    &&& forall|i: int, j: int|
        0 <= i < j < s.len() && (#[trigger] inbound_hash(s[i])) is Some ==> inbound_hash(s[i])
            != #[trigger] inbound_hash(s[j])
}

/// Every entry of the expiration queue names a transfer and carries its deadline.
pub open spec fn queue_ok(q: Seq<(Timestamp, TransferId)>, s: Seq<BridgeTransfer>) -> bool {
    forall|j: int|
        0 <= j < q.len() ==> 1 <= (#[trigger] q[j]).1 <= s.len() && q[j].0 == s[q[j].1 - 1].expires_at
}

proof fn lemma_queue_update(q: Seq<(Timestamp, TransferId)>, s: Seq<BridgeTransfer>, i: int, x: BridgeTransfer)
    requires
        queue_ok(q, s),
        0 <= i < s.len(),
        x.expires_at == s[i].expires_at,
    ensures
        queue_ok(q, s.update(i, x)),
{
    assert forall|j: int| 0 <= j < q.len() implies 1 <= (#[trigger] q[j]).1 <= s.update(i, x).len()
        && q[j].0 == s.update(i, x)[q[j].1 - 1].expires_at by {}
}

proof fn lemma_queue_push(q: Seq<(Timestamp, TransferId)>, s: Seq<BridgeTransfer>, x: BridgeTransfer)
    requires
        queue_ok(q, s),
        x.id == s.len() + 1,
    ensures
        queue_ok(q, s.push(x)),
        queue_ok(q.push((x.expires_at, x.id)), s.push(x)),
{
    let q2 = q.push((x.expires_at, x.id));
    assert forall|j: int| 0 <= j < q.len() implies 1 <= (#[trigger] q[j]).1 <= s.push(x).len()
        && q[j].0 == s.push(x)[q[j].1 - 1].expires_at by {}
    assert forall|j: int| 0 <= j < q2.len() implies 1 <= (#[trigger] q2[j]).1 <= s.push(x).len()
        && q2[j].0 == s.push(x)[q2[j].1 - 1].expires_at by {
        if j < q.len() {
            assert(q2[j] == q[j]);
        }
    }
}

proof fn lemma_queue_tail(q: Seq<(Timestamp, TransferId)>, s: Seq<BridgeTransfer>)
    requires
        queue_ok(q, s),
        q.len() > 0,
    ensures
        queue_ok(q.subrange(1, q.len() as int), s),
{
    let q2 = q.subrange(1, q.len() as int);
    assert forall|j: int| 0 <= j < q2.len() implies 1 <= (#[trigger] q2[j]).1 <= s.len()
        && q2[j].0 == s[q2[j].1 - 1].expires_at by {
        assert(q2[j] == q[j + 1]);
    }
}

proof fn lemma_transfers_update(s: Seq<BridgeTransfer>, i: int, t2: BridgeTransfer)
    requires
        transfers_wf(s),
        0 <= i < s.len(),
        same_terms(s[i], t2),
        approvals_unique(t2.approvals@),
    ensures
        transfers_wf(s.update(i, t2)),
{
    let s2 = s.update(i, t2);
    assert forall|j: int, k: int|
        0 <= j < k < s2.len() && (#[trigger] inbound_hash(s2[j])) is Some implies inbound_hash(s2[j])
            != #[trigger] inbound_hash(s2[k]) by {
        assert(inbound_hash(s2[j]) == inbound_hash(s[j]));
        assert(inbound_hash(s2[k]) == inbound_hash(s[k]));
    }
    assert forall|j: int| 0 <= j < s2.len() implies fee_split_ok(#[trigger] s2[j]) by {
        assert(fee_split_ok(s[j]));
    }
    assert forall|j: int| 0 <= j < s2.len() implies approvals_unique(#[trigger] s2[j].approvals@) by {
        if j != i {
            assert(s2[j] == s[j]);
            assert(approvals_unique(s[j].approvals@));
        }
    }
    assert forall|j: int| 0 <= j < s2.len() implies #[trigger] s2[j].id == j + 1 by {
        assert(s[j].id == j + 1);
    }
}

proof fn lemma_transfers_push(s: Seq<BridgeTransfer>, t: BridgeTransfer)
    requires
        transfers_wf(s),
        t.id == s.len() + 1,
        fee_split_ok(t),
        approvals_unique(t.approvals@),
        inbound_hash(t) is Some ==> forall|j: int| 0 <= j < s.len() ==> inbound_hash(#[trigger] s[j]) != inbound_hash(t),
    ensures
        transfers_wf(s.push(t)),
{
    let s2 = s.push(t);
    assert forall|j: int, k: int|
        0 <= j < k < s2.len() && (#[trigger] inbound_hash(s2[j])) is Some implies inbound_hash(s2[j])
            != #[trigger] inbound_hash(s2[k]) by {
        if k == s.len() {
            assert(s2[j] == s[j]);
        } else {
            assert(s2[j] == s[j] && s2[k] == s[k]);
        }
    }
    assert forall|j: int| 0 <= j < s2.len() implies fee_split_ok(#[trigger] s2[j]) by {
        if j < s.len() {
            assert(s2[j] == s[j]);
        }
    }
    assert forall|j: int| 0 <= j < s2.len() implies approvals_unique(#[trigger] s2[j].approvals@) by {
        if j < s.len() {
            assert(s2[j] == s[j]);
            assert(approvals_unique(s[j].approvals@));
        }
    }
    assert forall|j: int| 0 <= j < s2.len() implies #[trigger] s2[j].id == j + 1 by {
        if j < s.len() {
            assert(s2[j] == s[j]);
        }
    }
}

impl BridgeState {
    pub open spec fn has(&self, id: int) -> bool {
        1 <= id <= self.transfers@.len()
    }

    pub open spec fn get(&self, id: int) -> BridgeTransfer {
        self.transfers@[id - 1]
    }

    /// Some inbound transfer came from source transaction `h`.
    pub open spec fn seen_hash(&self, h: Seq<char>) -> bool {
        exists|i: int|
            0 <= i < self.transfers@.len() && inbound_hash(#[trigger] self.transfers@[i]) == Some(
                h,
            )
    }

    pub open spec fn wf(&self) -> bool {
        &&& self.ledger.wf()
        &&& queue_ok(self.expiration_queue@, self.transfers@)
        &&& self.next_transfer_id == self.transfers@.len() + 1
        &&& transfers_wf(self.transfers@)
        &&& chains_unique(self.chain_configs@)
        &&& validators_unique(self.validators@)
        &&& self.approval_threshold_percentage <= 100
        &&& self.total_validator_weight == sum(weight_terms(self.validators@))
    }

    /// Nothing differs from `prev`.
    pub open spec fn same_as(&self, prev: &Self) -> bool {
        &&& self.transfers@ == prev.transfers@
        &&& self.expiration_queue@ == prev.expiration_queue@
        &&& self.chain_configs@ == prev.chain_configs@
        &&& self.validators@ == prev.validators@
        &&& self.ledger == prev.ledger
        &&& self.next_transfer_id == prev.next_transfer_id
        &&& self.total_validator_weight == prev.total_validator_weight
        &&& self.approval_threshold_percentage == prev.approval_threshold_percentage
        &&& self.stats == prev.stats
        &&& self.is_paused == prev.is_paused
        &&& self.outbox@ == prev.outbox@
    }

    /// Chains, validators and the pause are as in `prev`.
    pub open spec fn config_unchanged(&self, prev: &Self) -> bool {
        &&& self.chain_configs@ == prev.chain_configs@
        &&& self.validators@ == prev.validators@
        &&& self.total_validator_weight == prev.total_validator_weight
        &&& self.approval_threshold_percentage == prev.approval_threshold_percentage
        &&& self.is_paused == prev.is_paused
    }

    /// Every transfer but `id` is as in `prev`, and the configuration is unchanged.
    pub open spec fn others_unchanged(&self, prev: &Self, id: int) -> bool {
        &&& self.transfers@.len() == prev.transfers@.len()
        &&& forall|i: int|
            0 <= i < self.transfers@.len() && i != id - 1 ==> #[trigger] self.transfers@[i]
                == prev.transfers@[i]
        &&& self.chain_configs@ == prev.chain_configs@
        &&& self.validators@ == prev.validators@
        &&& self.total_validator_weight == prev.total_validator_weight
        &&& self.approval_threshold_percentage == prev.approval_threshold_percentage
        &&& self.is_paused == prev.is_paused
    }
}

/// Transfer `t2` is `t` with another status or progress, and the same terms.
pub open spec fn same_terms(t: BridgeTransfer, t2: BridgeTransfer) -> bool {
    &&& t2.id == t.id
    &&& t2.direction == t.direction
    &&& t2.user == t.user
    &&& t2.asset@ == t.asset@
    &&& t2.amount == t.amount
    &&& t2.fee == t.fee
    &&& t2.net_amount == t.net_amount
    &&& inbound_hash(t2) == inbound_hash(t)
    &&& t2.expires_at == t.expires_at
    &&& t2.required_confirmations == t.required_confirmations
}

/// The index at which the transfer with id `id` stands.
fn slot(id: TransferId, len: usize) -> (r: usize)
    requires
        1 <= id <= len,
    ensures
        r == id - 1,
{
    (id - 1) as usize
}

/// Adding an approval never lowers the approval weight.
pub proof fn lemma_approval_weight_monotone(
    vals: Seq<ValidatorConfig>,
    aps: Seq<ValidatorApproval>,
    ap: ValidatorApproval,
)
    ensures
        approval_weight(vals, aps.push(ap)) >= approval_weight(vals, aps),
        approval_weight(vals, aps.push(ap)) == approval_weight(vals, aps) + weight_of(vals, ap.validator),
{
    assert(approval_terms(vals, aps.push(ap)) =~= approval_terms(vals, aps).push(weight_of(vals, ap.validator)));
    lemma_sum_push(approval_terms(vals, aps), weight_of(vals, ap.validator));
}

/// The fee on a transfer and what is left of it after the fee.
fn compute_fee(amount: Amount, base_fee: Amount, bps: u64) -> (r: Option<(Amount, Amount)>)
    ensures
        r is None <==> amount * bps > u128::MAX || spec_fee(amount, base_fee, bps) > u128::MAX,
        r matches Some((fee, net)) ==> fee == spec_fee(amount, base_fee, bps) && net == spec_net(amount, fee as int),
{
    let share = match amount.checked_mul(bps as u128) {
        Some(p) => p / 10000,
        None => {
            return None;
        },
    };
    let fee = match base_fee.checked_add(share) {
        Some(f) => f,
        None => {
            return None;
        },
    };
    Some((fee, amount.saturating_sub(fee)))
}

impl BridgeState {
    fn find_chain(&self, cid: u64) -> (r: Option<usize>)
        requires
            chains_unique(self.chain_configs@),
        ensures
            match r {
                Some(i) => i < self.chain_configs@.len() && has_chain(self.chain_configs@, cid)
                    && chain_cfg(self.chain_configs@, cid) == self.chain_configs@[i as int]
                    && spec_chain_id(self.chain_configs@[i as int].chain) == cid,
                None => !has_chain(self.chain_configs@, cid),
            },
    {
        let mut i: usize = 0;
        while i < self.chain_configs.len()
            invariant
                i <= self.chain_configs@.len(),
                chains_unique(self.chain_configs@),
                forall|j: int| 0 <= j < i ==> spec_chain_id(#[trigger] self.chain_configs@[j].chain) != cid,
            decreases self.chain_configs@.len() - i,
        {
            if self.chain_configs[i].chain.chain_id() == cid {
                proof {
                    let s = self.chain_configs@;
                    assert(has_chain(s, cid));
                    let j = choose|j: int| 0 <= j < s.len() && spec_chain_id(#[trigger] s[j].chain) == cid;
                    if j != i {
                        if j < i {
                            assert(spec_chain_id(s[j].chain) != spec_chain_id(s[i as int].chain));
                        } else {
                            assert(spec_chain_id(s[i as int].chain) != spec_chain_id(s[j].chain));
                        }
                    }
                }
                return Some(i);
            }
            i = i + 1;
        }
        None
    }

    fn find_validator(&self, a: Account) -> (r: Option<usize>)
        requires
            validators_unique(self.validators@),
        ensures
            match r {
                Some(i) => i < self.validators@.len() && has_validator(self.validators@, a)
                    && validator_cfg(self.validators@, a) == self.validators@[i as int]
                    && self.validators@[i as int].address == a,
                None => !has_validator(self.validators@, a),
            },
    {
        let mut i: usize = 0;
        while i < self.validators.len()
            invariant
                i <= self.validators@.len(),
                validators_unique(self.validators@),
                forall|j: int| 0 <= j < i ==> (#[trigger] self.validators@[j]).address != a,
            decreases self.validators@.len() - i,
        {
            if self.validators[i].address == a {
                proof {
                    let s = self.validators@;
                    assert(has_validator(s, a));
                    let j = choose|j: int| 0 <= j < s.len() && #[trigger] s[j].address == a;
                    if j != i {
                        if j < i {
                            assert(s[j].address != s[i as int].address);
                        } else {
                            assert(s[i as int].address != s[j].address);
                        }
                    }
                }
                return Some(i);
            }
            i = i + 1;
        }
        None
    }

    /// Whether some inbound transfer came from source transaction `h`.
    fn seen(&self, h: &String) -> (r: bool)
        ensures
            r == self.seen_hash(h@),
    {
        let mut i: usize = 0;
        while i < self.transfers.len()
            invariant
                i <= self.transfers@.len(),
                forall|j: int| 0 <= j < i ==> inbound_hash(#[trigger] self.transfers@[j]) != Some(h@),
            decreases self.transfers@.len() - i,
        {
            if self.transfers[i].direction == TransferDirection::Inbound {
                match &self.transfers[i].source_tx_hash {
                    Some(x) => {
                        if *x == *h {
                            return true;
                        }
                    },
                    None => {},
                }
            }
            i = i + 1;
        }
        false
    }

    /// The weight of the active validators that approved `aps`.
    fn weigh(&self, aps: &Vec<ValidatorApproval>) -> (r: u128)
        requires
            validators_unique(self.validators@),
        ensures
            r == approval_weight(self.validators@, aps@),
    {
        let ghost t = approval_terms(self.validators@, aps@);
        let mut acc: u128 = 0;
        let mut i: usize = 0;
        while i < aps.len()
            invariant
                i <= aps@.len(),
                t == approval_terms(self.validators@, aps@),
                validators_unique(self.validators@),
                acc == sum(t.take(i as int)),
                acc <= i * 0x1_0000_0000,
            decreases aps@.len() - i,
        {
            proof {
                assert(t.take(i + 1).drop_last() =~= t.take(i as int));
            }
            match self.find_validator(aps[i].validator) {
                Some(k) => {
                    if self.validators[k].is_active {
                        acc = acc + self.validators[k].weight as u128;
                    }
                },
                None => {},
            }
            i = i + 1;
        }
        proof {
            assert(t.take(i as int) =~= t);
        }
        acc
    }
}

/// Whether `c` supports asset `asset`.
fn supports_asset(c: &ChainConfig, asset: &String) -> (r: bool)
    ensures
        r == supports(*c, asset@),
{
    let mut i: usize = 0;
    while i < c.supported_assets.len()
        invariant
            i <= c.supported_assets@.len(),
            forall|j: int| 0 <= j < i ==> (#[trigger] c.supported_assets@[j]).local_asset@ != asset@,
        decreases c.supported_assets@.len() - i,
    {
        if c.supported_assets[i].local_asset == *asset {
            return true;
        }
        i = i + 1;
    }
    false
}

proof fn lemma_chain_cfg_at(s: Seq<ChainConfig>, i: int)
    requires
        chains_unique(s),
        0 <= i < s.len(),
    ensures
        has_chain(s, spec_chain_id(s[i].chain)),
        chain_cfg(s, spec_chain_id(s[i].chain)) == s[i],
{
    let cid = spec_chain_id(s[i].chain);
    assert(has_chain(s, cid));
    let j = choose|j: int| 0 <= j < s.len() && spec_chain_id(#[trigger] s[j].chain) == cid;
    if j < i {
        assert(spec_chain_id(s[j].chain) != spec_chain_id(s[i].chain));
    } else if j > i {
        assert(spec_chain_id(s[i].chain) != spec_chain_id(s[j].chain));
    }
}

proof fn lemma_validator_cfg_at(s: Seq<ValidatorConfig>, i: int)
    requires
        validators_unique(s),
        0 <= i < s.len(),
    ensures
        has_validator(s, s[i].address),
        validator_cfg(s, s[i].address) == s[i],
{
    let a = s[i].address;
    assert(has_validator(s, a));
    let j = choose|j: int| 0 <= j < s.len() && #[trigger] s[j].address == a;
    if j < i {
        assert(s[j].address != s[i].address);
    } else if j > i {
        assert(s[i].address != s[j].address);
    }
}

/// Chains `s2` hold what `s` held for every chain id but `cid`.
pub open spec fn other_chains_kept(s: Seq<ChainConfig>, s2: Seq<ChainConfig>, cid: u64) -> bool {
    forall|k: u64|
        k != cid ==> (#[trigger] has_chain(s2, k) == has_chain(s, k)) && (has_chain(s, k)
            ==> chain_cfg(s2, k) == chain_cfg(s, k))
}

/// Validators `s2` are those of `s` for every address but `a`.
pub open spec fn other_validators_kept(s: Seq<ValidatorConfig>, s2: Seq<ValidatorConfig>, a: Account) -> bool {
    forall|k: Account|
        k != a ==> (#[trigger] has_validator(s2, k) == has_validator(s, k)) && (has_validator(s, k)
            ==> validator_cfg(s2, k) == validator_cfg(s, k))
}

/// `s2` is `s` with position `i` replaced by an entry of the same chain id.
proof fn lemma_chains_replaced(s: Seq<ChainConfig>, s2: Seq<ChainConfig>, i: int)
    requires
        chains_unique(s),
        0 <= i < s.len(),
        s2 == s.update(i, s2[i]),
        spec_chain_id(s2[i].chain) == spec_chain_id(s[i].chain),
    ensures
        chains_unique(s2),
        has_chain(s2, spec_chain_id(s[i].chain)),
        chain_cfg(s2, spec_chain_id(s[i].chain)) == s2[i],
        other_chains_kept(s, s2, spec_chain_id(s[i].chain)),
{
    let cid = spec_chain_id(s[i].chain);
    assert forall|a: int, b: int| 0 <= a < b < s2.len() implies spec_chain_id(#[trigger] s2[a].chain)
        != spec_chain_id(#[trigger] s2[b].chain) by {
        assert(spec_chain_id(s[a].chain) != spec_chain_id(s[b].chain));
    }
    lemma_chain_cfg_at(s2, i);
    assert forall|k: u64| k != cid implies (#[trigger] has_chain(s2, k) == has_chain(s, k)) && (has_chain(s, k)
        ==> chain_cfg(s2, k) == chain_cfg(s, k)) by {
        if has_chain(s, k) {
            let j = choose|j: int| 0 <= j < s.len() && spec_chain_id(#[trigger] s[j].chain) == k;
            lemma_chain_cfg_at(s, j);
            lemma_chain_cfg_at(s2, j);
        }
        if has_chain(s2, k) {
            let j = choose|j: int| 0 <= j < s2.len() && spec_chain_id(#[trigger] s2[j].chain) == k;
            assert(s[j] == s2[j]);
        }
    }
}

/// `s2` is `s` with an entry for a new chain id pushed.
proof fn lemma_chains_pushed(s: Seq<ChainConfig>, s2: Seq<ChainConfig>, c: ChainConfig)
    requires
        chains_unique(s),
        !has_chain(s, spec_chain_id(c.chain)),
        s2 == s.push(c),
    ensures
        chains_unique(s2),
        has_chain(s2, spec_chain_id(c.chain)),
        chain_cfg(s2, spec_chain_id(c.chain)) == c,
        other_chains_kept(s, s2, spec_chain_id(c.chain)),
{
    let cid = spec_chain_id(c.chain);
    assert forall|a: int, b: int| 0 <= a < b < s2.len() implies spec_chain_id(#[trigger] s2[a].chain)
        != spec_chain_id(#[trigger] s2[b].chain) by {
        if b < s.len() {
            assert(spec_chain_id(s[a].chain) != spec_chain_id(s[b].chain));
        } else {
            assert(s2[a] == s[a]);
        }
    }
    lemma_chain_cfg_at(s2, s.len() as int);
    assert forall|k: u64| k != cid implies (#[trigger] has_chain(s2, k) == has_chain(s, k)) && (has_chain(s, k)
        ==> chain_cfg(s2, k) == chain_cfg(s, k)) by {
        if has_chain(s, k) {
            let j = choose|j: int| 0 <= j < s.len() && spec_chain_id(#[trigger] s[j].chain) == k;
            lemma_chain_cfg_at(s, j);
            assert(s2[j] == s[j]);
            lemma_chain_cfg_at(s2, j);
        }
        if has_chain(s2, k) {
            let j = choose|j: int| 0 <= j < s2.len() && spec_chain_id(#[trigger] s2[j].chain) == k;
            assert(s[j] == s2[j]);
        }
    }
}

proof fn lemma_validators_replaced(s: Seq<ValidatorConfig>, s2: Seq<ValidatorConfig>, i: int)
    requires
        validators_unique(s),
        0 <= i < s.len(),
        s2 == s.update(i, s2[i]),
        s2[i].address == s[i].address,
    ensures
        validators_unique(s2),
        has_validator(s2, s[i].address),
        validator_cfg(s2, s[i].address) == s2[i],
        other_validators_kept(s, s2, s[i].address),
{
    let a0 = s[i].address;
    assert forall|a: int, b: int| 0 <= a < b < s2.len() implies #[trigger] s2[a].address != #[trigger] s2[b].address by {
        assert(s[a].address != s[b].address);
    }
    lemma_validator_cfg_at(s2, i);
    assert forall|k: Account| k != a0 implies (#[trigger] has_validator(s2, k) == has_validator(s, k)) && (has_validator(s, k)
        ==> validator_cfg(s2, k) == validator_cfg(s, k)) by {
        if has_validator(s, k) {
            let j = choose|j: int| 0 <= j < s.len() && #[trigger] s[j].address == k;
            lemma_validator_cfg_at(s, j);
            lemma_validator_cfg_at(s2, j);
        }
        if has_validator(s2, k) {
            let j = choose|j: int| 0 <= j < s2.len() && #[trigger] s2[j].address == k;
            assert(s[j] == s2[j]);
        }
    }
}

proof fn lemma_validators_pushed(s: Seq<ValidatorConfig>, s2: Seq<ValidatorConfig>, v: ValidatorConfig)
    requires
        validators_unique(s),
        !has_validator(s, v.address),
        s2 == s.push(v),
    ensures
        validators_unique(s2),
        has_validator(s2, v.address),
        validator_cfg(s2, v.address) == v,
        other_validators_kept(s, s2, v.address),
{
    assert forall|a: int, b: int| 0 <= a < b < s2.len() implies #[trigger] s2[a].address != #[trigger] s2[b].address by {
        if b < s.len() {
            assert(s[a].address != s[b].address);
        } else {
            assert(s2[a] == s[a]);
        }
    }
    lemma_validator_cfg_at(s2, s.len() as int);
    assert forall|k: Account| k != v.address implies (#[trigger] has_validator(s2, k) == has_validator(s, k)) && (has_validator(s, k)
        ==> validator_cfg(s2, k) == validator_cfg(s, k)) by {
        if has_validator(s, k) {
            let j = choose|j: int| 0 <= j < s.len() && #[trigger] s[j].address == k;
            lemma_validator_cfg_at(s, j);
            assert(s2[j] == s[j]);
            lemma_validator_cfg_at(s2, j);
        }
        if has_validator(s2, k) {
            let j = choose|j: int| 0 <= j < s2.len() && #[trigger] s2[j].address == k;
            assert(s[j] == s2[j]);
        }
    }
}

proof fn lemma_validators_removed(s: Seq<ValidatorConfig>, i: int)
    requires
        validators_unique(s),
        0 <= i < s.len(),
    ensures
        validators_unique(s.remove(i)),
        !has_validator(s.remove(i), s[i].address),
        other_validators_kept(s, s.remove(i), s[i].address),
{
    let s2 = s.remove(i);
    let a0 = s[i].address;
    assert forall|a: int, b: int| 0 <= a < b < s2.len() implies #[trigger] s2[a].address != #[trigger] s2[b].address by {
        let a1 = if a < i { a } else { a + 1 };
        let b1 = if b < i { b } else { b + 1 };
        assert(s[a1].address != s[b1].address);
    }
    if has_validator(s2, a0) {
        let j = choose|j: int| 0 <= j < s2.len() && #[trigger] s2[j].address == a0;
        let j1 = if j < i { j } else { j + 1 };
        if j1 < i {
            assert(s[j1].address != s[i].address);
        } else {
            assert(s[i].address != s[j1].address);
        }
    }
    assert forall|k: Account| k != a0 implies (#[trigger] has_validator(s2, k) == has_validator(s, k)) && (has_validator(s, k)
        ==> validator_cfg(s2, k) == validator_cfg(s, k)) by {
        if has_validator(s, k) {
            let j = choose|j: int| 0 <= j < s.len() && #[trigger] s[j].address == k;
            lemma_validator_cfg_at(s, j);
            let j2 = if j < i { j } else { j - 1 };
            assert(s2[j2] == s[j]);
            lemma_validator_cfg_at(s2, j2);
        }
        if has_validator(s2, k) {
            let j = choose|j: int| 0 <= j < s2.len() && #[trigger] s2[j].address == k;
            let j1 = if j < i { j } else { j + 1 };
            assert(s[j1] == s2[j]);
        }
    }
}

/// The configuration `c2` is `c` but for its fees and whether it is enabled.
pub open spec fn same_limits(c: ChainConfig, c2: ChainConfig) -> bool {
    &&& c2.chain == c.chain
    &&& c2.supported_assets@ == c.supported_assets@
    &&& c2.min_transfer_amount == c.min_transfer_amount
    &&& c2.max_transfer_amount == c.max_transfer_amount
    &&& c2.required_confirmations == c.required_confirmations
}

impl BridgeContract {
    /// A bridge with no chains, no validators, no transfers and empty balances,
    /// approving at the default share of validator weight.
    pub fn new() -> (r: BridgeContract)
        ensures
            r.state.wf(),
            r.state.transfers@.len() == 0,
            r.state.chain_configs@.len() == 0,
            r.state.validators@.len() == 0,
            r.state.total_validator_weight == 0,
            r.state.approval_threshold_percentage == DEFAULT_APPROVAL_PERCENTAGE,
            !r.state.is_paused,
            forall|h: Holder, a: Seq<char>| #[trigger] r.state.ledger.balance(h, a) == 0,
    {
        BridgeContract {
            state: BridgeState {
                next_transfer_id: 1,
                transfers: Vec::new(),
                expiration_queue: Vec::new(),
                chain_configs: Vec::new(),
                validators: Vec::new(),
                total_validator_weight: 0,
                approval_threshold_percentage: DEFAULT_APPROVAL_PERCENTAGE,
                ledger: BalanceLedger::new(),
                stats: BridgeStats {
                    total_inbound_transfers: 0,
                    total_outbound_transfers: 0,
                    total_inbound_volume: 0,
                    total_outbound_volume: 0,
                    total_fees_collected: 0,
                    pending_transfers: 0,
                    failed_transfers: 0,
                },
                is_paused: false,
                outbox: Vec::new(),
            },
        }
    }

    /// Sets the configuration of the chain of `config`, replacing any earlier one.
    pub fn configure_chain(&mut self, config: ChainConfig)
        requires
            old(self).state.wf(),
        ensures
            final(self).state.wf(),
            has_chain(final(self).state.chain_configs@, spec_chain_id(config.chain)),
            chain_cfg(final(self).state.chain_configs@, spec_chain_id(config.chain)) == config,
            other_chains_kept(old(self).state.chain_configs@, final(self).state.chain_configs@, spec_chain_id(config.chain)),
            final(self).state.transfers@ == old(self).state.transfers@,
            final(self).state.ledger == old(self).state.ledger,
            final(self).state.validators@ == old(self).state.validators@,
    {
        let cid = config.chain.chain_id();
        let ghost s = self.state.chain_configs@;
        let ghost c = config;
        match self.state.find_chain(cid) {
            Some(i) => {
                self.state.chain_configs.set(i, config);
                proof {
                    lemma_chains_replaced(s, self.state.chain_configs@, i as int);
                }
            },
            None => {
                self.state.chain_configs.push(config);
                proof {
                    lemma_chains_pushed(s, self.state.chain_configs@, c);
                }
            },
        }
    }

    /// Disables a configured chain.
    pub fn disable_chain(&mut self, chain: ExternalChain) -> (r: Result<(), BridgeError>)
        requires
            old(self).state.wf(),
        ensures
            final(self).state.wf(),
            r is Err <==> !has_chain(old(self).state.chain_configs@, spec_chain_id(chain)),
            r is Err ==> r == Err::<(), BridgeError>(BridgeError::ChainNotConfigured { chain })
                && final(self).state.same_as(&old(self).state),
            r is Ok ==> ({
                let cid = spec_chain_id(chain);
                let c = chain_cfg(old(self).state.chain_configs@, cid);
                let c2 = chain_cfg(final(self).state.chain_configs@, cid);
                &&& has_chain(final(self).state.chain_configs@, cid)
                &&& !c2.is_enabled
                &&& same_limits(c, c2)
                &&& c2.base_fee == c.base_fee
                &&& c2.fee_percentage_bps == c.fee_percentage_bps
                &&& other_chains_kept(old(self).state.chain_configs@, final(self).state.chain_configs@, cid)
            }),
            final(self).state.transfers@ == old(self).state.transfers@,
            final(self).state.ledger == old(self).state.ledger,
            final(self).state.validators@ == old(self).state.validators@,
    {
        let cid = chain.chain_id();
        let ghost s = self.state.chain_configs@;
        match self.state.find_chain(cid) {
            Some(i) => {
                let mut c = self.state.chain_configs.remove(i);
                c.is_enabled = false;
                self.state.chain_configs.insert(i, c);
                proof {
                    assert(self.state.chain_configs@ =~= s.update(i as int, self.state.chain_configs@[i as int]));
                    lemma_chains_replaced(s, self.state.chain_configs@, i as int);
                }
                Ok(())
            },
            None => Err(BridgeError::ChainNotConfigured { chain }),
        }
    }

    /// Changes the base fee and the share in basis points of a configured
    /// chain; `None` keeps a value.
    pub fn update_fees(&mut self, chain: ExternalChain, base_fee: Option<Amount>, fee_percentage_bps: Option<u64>) -> (r: Result<(), BridgeError>)
        requires
            old(self).state.wf(),
        ensures
            final(self).state.wf(),
            r is Err <==> !has_chain(old(self).state.chain_configs@, spec_chain_id(chain)),
            r is Err ==> r == Err::<(), BridgeError>(BridgeError::ChainNotConfigured { chain })
                && final(self).state.same_as(&old(self).state),
            r is Ok ==> ({
                let cid = spec_chain_id(chain);
                let c = chain_cfg(old(self).state.chain_configs@, cid);
                let c2 = chain_cfg(final(self).state.chain_configs@, cid);
                &&& has_chain(final(self).state.chain_configs@, cid)
                &&& c2.is_enabled == c.is_enabled
                &&& same_limits(c, c2)
                &&& c2.base_fee == (match base_fee { Some(f) => f, None => c.base_fee })
                &&& c2.fee_percentage_bps == (match fee_percentage_bps { Some(b) => b, None => c.fee_percentage_bps })
                &&& other_chains_kept(old(self).state.chain_configs@, final(self).state.chain_configs@, cid)
            }),
            final(self).state.transfers@ == old(self).state.transfers@,
            final(self).state.ledger == old(self).state.ledger,
            final(self).state.validators@ == old(self).state.validators@,
    {
        let cid = chain.chain_id();
        let ghost s = self.state.chain_configs@;
        match self.state.find_chain(cid) {
            Some(i) => {
                let mut c = self.state.chain_configs.remove(i);
                if let Some(f) = base_fee {
                    c.base_fee = f;
                }
                if let Some(b) = fee_percentage_bps {
                    c.fee_percentage_bps = b;
                }
                self.state.chain_configs.insert(i, c);
                proof {
                    assert(self.state.chain_configs@ =~= s.update(i as int, self.state.chain_configs@[i as int]));
                    lemma_chains_replaced(s, self.state.chain_configs@, i as int);
                }
                Ok(())
            },
            None => Err(BridgeError::ChainNotConfigured { chain }),
        }
    }

    /// Registers a validator, or replaces the configuration of a registered one,
    /// and keeps the total weight in step.
    pub fn add_validator(&mut self, config: ValidatorConfig) -> (r: Result<(), BridgeError>)
        requires
            old(self).state.wf(),
        ensures
            final(self).state.wf(),
            ({
                let s = old(self).state.validators@;
                let prior = if has_validator(s, config.address) { validator_cfg(s, config.address).weight as int } else { 0 };
                let total = old(self).state.total_validator_weight - prior + config.weight;
                &&& r is Err <==> total > u32::MAX
                &&& r is Err ==> r == Err::<(), BridgeError>(BridgeError::Overflow) && final(self).state.same_as(&old(self).state)
                &&& r is Ok ==> final(self).state.total_validator_weight == total
                    && has_validator(final(self).state.validators@, config.address)
                    && validator_cfg(final(self).state.validators@, config.address) == config
                    && other_validators_kept(s, final(self).state.validators@, config.address)
            }),
            final(self).state.transfers@ == old(self).state.transfers@,
            final(self).state.ledger == old(self).state.ledger,
            final(self).state.chain_configs@ == old(self).state.chain_configs@,
    {
        let ghost s = self.state.validators@;
        let ghost v = config;
        match self.state.find_validator(config.address) {
            Some(i) => {
                let prior = self.state.validators[i].weight;
                let rest = self.state.total_validator_weight.saturating_sub(prior);
                let total = match rest.checked_add(config.weight) {
                    Some(t) => t,
                    None => {
                        return Err(BridgeError::Overflow);
                    },
                };
                proof {
                    lemma_elem_le_sum(weight_terms(s), i as int);
                    assert(weight_terms(s).update(i as int, v.weight as int) =~= weight_terms(s.update(i as int, v)));
                    lemma_sum_update(weight_terms(s), i as int, v.weight as int);
                }
                self.state.validators.set(i, config);
                self.state.total_validator_weight = total;
                proof {
                    lemma_validators_replaced(s, self.state.validators@, i as int);
                }
                Ok(())
            },
            None => {
                let total = match self.state.total_validator_weight.checked_add(config.weight) {
                    Some(t) => t,
                    None => {
                        return Err(BridgeError::Overflow);
                    },
                };
                self.state.validators.push(config);
                self.state.total_validator_weight = total;
                proof {
                    lemma_validators_pushed(s, self.state.validators@, v);
                    assert(weight_terms(s).push(v.weight as int) =~= weight_terms(self.state.validators@));
                    lemma_sum_push(weight_terms(s), v.weight as int);
                }
                Ok(())
            },
        }
    }

    /// Deregisters a validator; the total weight drops by its weight.
    pub fn remove_validator(&mut self, validator: Account) -> (r: Result<(), BridgeError>)
        requires
            old(self).state.wf(),
        ensures
            final(self).state.wf(),
            r is Err <==> !has_validator(old(self).state.validators@, validator),
            r is Err ==> r == Err::<(), BridgeError>(BridgeError::ValidatorNotFound { address: validator })
                && final(self).state.same_as(&old(self).state),
            r is Ok ==> !has_validator(final(self).state.validators@, validator)
                && final(self).state.total_validator_weight == old(self).state.total_validator_weight
                    - validator_cfg(old(self).state.validators@, validator).weight
                && other_validators_kept(old(self).state.validators@, final(self).state.validators@, validator),
            final(self).state.transfers@ == old(self).state.transfers@,
            final(self).state.ledger == old(self).state.ledger,
            final(self).state.chain_configs@ == old(self).state.chain_configs@,
    {
        let ghost s = self.state.validators@;
        match self.state.find_validator(validator) {
            Some(i) => {
                let w = self.state.validators[i].weight;
                proof {
                    lemma_elem_le_sum(weight_terms(s), i as int);
                    assert(weight_terms(s).remove(i as int) =~= weight_terms(s.remove(i as int)));
                    lemma_sum_remove(weight_terms(s), i as int);
                    lemma_validators_removed(s, i as int);
                }
                self.state.validators.remove(i);
                self.state.total_validator_weight = self.state.total_validator_weight - w;
                Ok(())
            },
            None => Err(BridgeError::ValidatorNotFound { address: validator }),
        }
    }

    /// Stops every operation but the administrative ones.
    pub fn emergency_pause(&mut self)
        requires
            old(self).state.wf(),
        ensures
            final(self).state.wf(),
            final(self).state.is_paused,
            final(self).state.transfers@ == old(self).state.transfers@,
            final(self).state.ledger == old(self).state.ledger,
    {
        self.state.is_paused = true;
    }

    /// Lifts a pause.
    pub fn resume(&mut self)
        requires
            old(self).state.wf(),
        ensures
            final(self).state.wf(),
            !final(self).state.is_paused,
            final(self).state.transfers@ == old(self).state.transfers@,
            final(self).state.ledger == old(self).state.ledger,
    {
        self.state.is_paused = false;
    }

    /// The weight that approves a transfer, from the total weight and the share.
    fn required_weight(&self) -> (r: u32)
        requires
            self.state.approval_threshold_percentage <= 100,
        ensures
            r == spec_required_weight(self.state.total_validator_weight, self.state.approval_threshold_percentage),
    {
        let total = self.state.total_validator_weight as u64;
        let pct = self.state.approval_threshold_percentage as u64;
        proof {
            assert(total * pct <= total * 100) by (nonlinear_arith)
                requires pct <= 100, total >= 0;
            assert(total * pct == self.state.total_validator_weight * self.state.approval_threshold_percentage);
        }
        ((total * pct) / 100) as u32
    }

    /// What `initiate_withdrawal` returns.
    pub open spec fn withdrawal_outcome(
        &self,
        caller: Account,
        chain: ExternalChain,
        address: Seq<char>,
        asset: Seq<char>,
        amount: Amount,
    ) -> Result<TransferId, BridgeError> {
        let st = self.state;
        let cid = spec_chain_id(chain);
        if st.is_paused {
            Err(BridgeError::Paused)
        } else if !has_chain(st.chain_configs@, cid) {
            Err(BridgeError::ChainNotConfigured { chain })
        } else {
            let c = chain_cfg(st.chain_configs@, cid);
            if !c.is_enabled {
                Err(BridgeError::ChainDisabled { chain })
            } else if !supports(c, asset) {
                Err(BridgeError::AssetNotSupported { chain })
            } else if amount < c.min_transfer_amount {
                Err(BridgeError::BelowMinimum { amount, minimum: c.min_transfer_amount })
            } else if amount > c.max_transfer_amount {
                Err(BridgeError::AboveMaximum { amount, maximum: c.max_transfer_amount })
            } else if address.len() == 0 {
                Err(BridgeError::InvalidAddress)
            } else if amount * c.fee_percentage_bps > u128::MAX || spec_fee(amount, c.base_fee, c.fee_percentage_bps) > u128::MAX {
                Err(BridgeError::Overflow)
            } else if st.ledger.free(caller, asset) < amount {
                Err(BridgeError::InsufficientBalance {
                    required: amount,
                    available: st.ledger.free(caller, asset) as u128,
                })
            } else {
                Ok(st.next_transfer_id)
            }
        }
    }

    /// `self` is `prev` after outbound transfer `id` of `caller` was started at `now`.
    pub open spec fn withdrawal_started(&self, prev: &Self, id: TransferId, now: Timestamp, caller: Account, destination_chain: ExternalChain, destination_address: Seq<char>, asset: Seq<char>, amount: Amount) -> bool {
        let c = chain_cfg(prev.state.chain_configs@, spec_chain_id(destination_chain));
        let fee = spec_fee(amount, c.base_fee, c.fee_percentage_bps);
        let net = spec_net(amount, fee);
        let t = self.state.get(id as int);
        &&& id == prev.state.next_transfer_id
        &&& self.state.transfers@.len() == prev.state.transfers@.len() + 1
        &&& self.state.transfers@.drop_last() == prev.state.transfers@
        &&& t.id == id
        &&& t.direction == TransferDirection::Outbound
        &&& t.user == caller
        &&& t.asset@ == asset
        &&& t.amount == amount
        &&& t.fee == fee
        &&& t.net_amount == net
        &&& t.status == TransferStatus::AwaitingApproval
        &&& t.destination_chain == Some(destination_chain)
        &&& t.external_address@ == destination_address
        &&& t.expires_at == spec_deadline(now, TRANSFER_TIMEOUT_SECONDS)
        &&& t.approvals@.len() == 0
        &&& t.approval_threshold == spec_required_weight(prev.state.total_validator_weight, prev.state.approval_threshold_percentage)
        &&& self.state.ledger.moved(&prev.state.ledger, asset, Holder::Free(caller), -amount, Holder::Fees, amount - net)
        &&& self.state.ledger.flows(&prev.state.ledger, asset, 0, net)
        &&& self.state.config_unchanged(&prev.state)
        &&& self.state.next_transfer_id == id + 1
        &&& self.state.expiration_queue@ == prev.state.expiration_queue@.push((t.expires_at, id))
        // the relayer is asked to pay out the net amount
        &&& self.state.outbox@.drop_last() == prev.state.outbox@
        &&& self.state.outbox@.len() == prev.state.outbox@.len() + 1
        &&& match self.state.outbox@.last() {
            Message::WithdrawalRequest { transfer_id, chain, recipient_address, asset: a2, amount: paid } =>
                transfer_id == id && chain == destination_chain && recipient_address@ == destination_address
                    && a2@ == asset && paid == net,
            _ => false,
        }
    }

    /// Starts a withdrawal of `amount` of `asset` to `destination_address` on
    /// `destination_chain`. The caller's free balance pays the whole amount at
    /// once: the fee stays with the bridge and the rest leaves the ledger. The
    /// transfer then waits for validator approval, and the relayers get a
    /// withdrawal request in the outbox.
    pub fn initiate_withdrawal(
        &mut self,
        caller: Account,
        now: Timestamp,
        destination_chain: ExternalChain,
        destination_address: String,
        asset: String,
        amount: Amount,
    ) -> (r: Result<TransferId, BridgeError>)
        requires
            old(self).state.wf(),
            old(self).state.transfers@.len() + 1 < u64::MAX,
        ensures
            final(self).state.wf(),
            r == old(self).withdrawal_outcome(caller, destination_chain, destination_address@, asset@, amount),
            r is Err ==> final(self).state.same_as(&old(self).state),
            r is Ok ==> final(self).withdrawal_started(old(self), r->Ok_0, now, caller, destination_chain, destination_address@, asset@, amount),
    {
        if self.state.is_paused {
            return Err(BridgeError::Paused);
        }
        let ci = match self.state.find_chain(destination_chain.chain_id()) {
            Some(i) => i,
            None => {
                return Err(BridgeError::ChainNotConfigured { chain: destination_chain });
            },
        };
        let c = &self.state.chain_configs[ci];
        if !c.is_enabled {
            return Err(BridgeError::ChainDisabled { chain: destination_chain });
        }
        if !supports_asset(c, &asset) {
            return Err(BridgeError::AssetNotSupported { chain: destination_chain });
        }
        if amount < c.min_transfer_amount {
            return Err(BridgeError::BelowMinimum { amount, minimum: c.min_transfer_amount });
        }
        if amount > c.max_transfer_amount {
            return Err(BridgeError::AboveMaximum { amount, maximum: c.max_transfer_amount });
        }
        if destination_address.as_str().is_empty() {
            return Err(BridgeError::InvalidAddress);
        }
        let (fee, net) = match compute_fee(amount, c.base_fee, c.fee_percentage_bps) {
            Some(p) => p,
            None => {
                return Err(BridgeError::Overflow);
            },
        };
        let available = self.state.ledger.free_balance(caller, &asset);
        if available < amount {
            return Err(BridgeError::InsufficientBalance { required: amount, available });
        }
        let ghost old_state = self.state;
        let kept = amount - net;
        match self.state.ledger.charge_fee(caller, &asset, kept) {
            Ok(()) => {},
            Err(_) => {
                return Err(BridgeError::Overflow);
            },
        }
        let ghost l1 = self.state.ledger;
        match self.state.ledger.debit(caller, &asset, net) {
            Ok(()) => {},
            Err(_) => {
                proof {
                    assert(l1.balance(Holder::Free(caller), asset@) == old_state.ledger.balance(Holder::Free(caller), asset@) - kept);
                }
                return Err(BridgeError::Overflow);
            },
        }
        let id = self.state.next_transfer_id;
        let threshold = self.required_weight();
        let expires_at = deadline(now, TRANSFER_TIMEOUT_SECONDS);
        let request = Message::WithdrawalRequest {
            transfer_id: id,
            chain: destination_chain,
            recipient_address: destination_address.clone(),
            asset: asset.clone(),
            amount: net,
        };
        let t = BridgeTransfer {
            id,
            direction: TransferDirection::Outbound,
            source_chain: ExternalChain::Custom(0),
            destination_chain: Some(destination_chain),
            user: caller,
            external_address: destination_address,
            asset,
            amount,
            fee,
            net_amount: net,
            source_tx_hash: None,
            destination_tx_hash: None,
            status: TransferStatus::AwaitingApproval,
            confirmations: 0,
            required_confirmations: 0,
            created_at: now,
            completed_at: None,
            expires_at,
            approvals: Vec::new(),
            approval_threshold: threshold,
            retry_count: 0,
        };
        let ghost tg = t;
        proof {
            lemma_transfers_push(old_state.transfers@, tg);
            lemma_queue_push(old_state.expiration_queue@, old_state.transfers@, tg);
        }
        self.state.transfers.push(t);
        self.state.expiration_queue.push((expires_at, id));
        self.state.outbox.push(request);
        self.state.next_transfer_id = id + 1;
        self.state.stats.total_outbound_transfers = self.state.stats.total_outbound_transfers.saturating_add(1);
        self.state.stats.total_outbound_volume = self.state.stats.total_outbound_volume.saturating_add(net);
        self.state.stats.total_fees_collected = self.state.stats.total_fees_collected.saturating_add(kept);
        self.state.stats.pending_transfers = self.state.stats.pending_transfers.saturating_add(1);
        proof {
            assert(self.state.transfers@ =~= old_state.transfers@.push(tg));
            assert(self.state.transfers@.drop_last() =~= old_state.transfers@);
            assert(self.state.outbox@.drop_last() =~= old_state.outbox@);
            assert forall|h: Holder, b: Seq<char>| #[trigger] self.state.ledger.balance(h, b)
                == old_state.ledger.balance(h, b) + delta(h, b, Holder::Free(caller), asset@, -amount)
                + delta(h, b, Holder::Fees, asset@, kept as int) by {
                assert(l1.balance(h, b) == old_state.ledger.balance(h, b) + delta(h, b, Holder::Free(caller), asset@, -kept)
                    + delta(h, b, Holder::Fees, asset@, kept as int));
            }
        }
        Ok(id)
    }

    /// What `report_deposit` returns.
    pub open spec fn deposit_outcome(
        &self,
        source_chain: ExternalChain,
        tx_hash: Seq<char>,
        asset: Seq<char>,
        amount: Amount,
        confirmations: u64,
    ) -> Result<TransferId, BridgeError> {
        let st = self.state;
        let cid = spec_chain_id(source_chain);
        if st.is_paused {
            Err(BridgeError::Paused)
        } else if st.seen_hash(tx_hash) {
            Err(BridgeError::DuplicateDeposit)
        } else if !has_chain(st.chain_configs@, cid) {
            Err(BridgeError::ChainNotConfigured { chain: source_chain })
        } else {
            let c = chain_cfg(st.chain_configs@, cid);
            if !c.is_enabled {
                Err(BridgeError::ChainDisabled { chain: source_chain })
            } else if !supports(c, asset) {
                Err(BridgeError::AssetNotSupported { chain: source_chain })
            } else if amount * c.fee_percentage_bps > u128::MAX || spec_fee(amount, c.base_fee, c.fee_percentage_bps) > u128::MAX {
                Err(BridgeError::Overflow)
            } else if confirmations >= c.required_confirmations && st.ledger.supply(asset) + amount > u128::MAX {
                Err(BridgeError::Overflow)
            } else {
                Ok(st.next_transfer_id)
            }
        }
    }

    /// `self` is `prev` after inbound transfer `id`, seen in transaction
    /// `tx_hash` on `source_chain`, was recorded at `now`: completed and credited
    /// less the fee when confirmed enough, else waiting for confirmations and
    /// queued for expiry.
    pub open spec fn deposit_recorded(
        &self,
        prev: &Self,
        id: TransferId,
        now: Timestamp,
        source_chain: ExternalChain,
        tx_hash: Seq<char>,
        recipient: Account,
        asset: Seq<char>,
        amount: Amount,
        confirmations: u64,
    ) -> bool {
        let c = chain_cfg(prev.state.chain_configs@, spec_chain_id(source_chain));
        let fee = spec_fee(amount, c.base_fee, c.fee_percentage_bps);
        let net = spec_net(amount, fee);
        let t = self.state.get(id as int);
        let expires_at = spec_deadline(now, TRANSFER_TIMEOUT_SECONDS);
        &&& id == prev.state.next_transfer_id
        &&& self.state.next_transfer_id == id + 1
        &&& self.state.transfers@.len() == prev.state.transfers@.len() + 1
        &&& self.state.transfers@.drop_last() == prev.state.transfers@
        &&& t.id == id
        &&& t.direction == TransferDirection::Inbound
        &&& inbound_hash(t) == Some(tx_hash)
        &&& t.user == recipient
        &&& t.asset@ == asset
        &&& t.amount == amount
        &&& t.fee == fee
        &&& t.net_amount == net
        &&& t.confirmations == confirmations
        &&& t.required_confirmations == c.required_confirmations
        &&& t.expires_at == expires_at
        &&& self.state.config_unchanged(&prev.state)
        &&& if confirmations >= c.required_confirmations {
            &&& t.status == TransferStatus::Completed
            &&& t.completed_at == Some(now)
            &&& self.state.ledger.moved(&prev.state.ledger, asset, Holder::Free(recipient), net, Holder::Fees, amount - net)
            &&& self.state.ledger.flows(&prev.state.ledger, asset, amount as int, 0)
            &&& self.state.expiration_queue@ == prev.state.expiration_queue@
        } else {
            &&& t.status == TransferStatus::Confirming
            &&& self.state.ledger == prev.state.ledger
            &&& self.state.expiration_queue@ == prev.state.expiration_queue@.push((expires_at as u64, id))
        }
    }

    /// Records a deposit seen on `source_chain` in transaction `tx_hash`. With
    /// enough confirmations it completes at once: the recipient is credited the
    /// amount less the fee, and the fee is collected. Otherwise it waits for
    /// confirmations. A transaction is accepted once only.
    pub fn report_deposit(
        &mut self,
        now: Timestamp,
        source_chain: ExternalChain,
        tx_hash: String,
        source_address: String,
        recipient: Account,
        asset: String,
        amount: Amount,
        confirmations: u64,
    ) -> (r: Result<TransferId, BridgeError>)
        requires
            old(self).state.wf(),
            old(self).state.transfers@.len() + 1 < u64::MAX,
        ensures
            final(self).state.wf(),
            r == old(self).deposit_outcome(source_chain, tx_hash@, asset@, amount, confirmations),
            r is Err ==> final(self).state.same_as(&old(self).state),
            r is Ok ==> final(self).deposit_recorded(old(self), r->Ok_0, now, source_chain, tx_hash@, recipient, asset@, amount, confirmations),
    {
        if self.state.is_paused {
            return Err(BridgeError::Paused);
        }
        if self.state.seen(&tx_hash) {
            return Err(BridgeError::DuplicateDeposit);
        }
        let ci = match self.state.find_chain(source_chain.chain_id()) {
            Some(i) => i,
            None => {
                return Err(BridgeError::ChainNotConfigured { chain: source_chain });
            },
        };
        let c = &self.state.chain_configs[ci];
        if !c.is_enabled {
            return Err(BridgeError::ChainDisabled { chain: source_chain });
        }
        if !supports_asset(c, &asset) {
            return Err(BridgeError::AssetNotSupported { chain: source_chain });
        }
        let (fee, net) = match compute_fee(amount, c.base_fee, c.fee_percentage_bps) {
            Some(p) => p,
            None => {
                return Err(BridgeError::Overflow);
            },
        };
        let required = c.required_confirmations;
        let confirmed = confirmations >= required;
        if confirmed {
            let supply = self.state.ledger.supply_of(&asset);
            if supply > u128::MAX - amount {
                return Err(BridgeError::Overflow);
            }
        }
        let ghost old_state = self.state;
        let kept = amount - net;
        if confirmed {
            match self.state.ledger.credit(recipient, &asset, net) {
                Ok(()) => {},
                Err(_) => {
                    return Err(BridgeError::Overflow);
                },
            }
            let ghost l1 = self.state.ledger;
            match self.state.ledger.credit_fees(&asset, kept) {
                Ok(()) => {},
                Err(_) => {
                    proof {
                        l1.lemma_supply(asset@);
                        old_state.ledger.lemma_supply(asset@);
                    }
                    return Err(BridgeError::Overflow);
                },
            }
            proof {
                assert forall|h: Holder, b: Seq<char>| #[trigger] self.state.ledger.balance(h, b)
                    == old_state.ledger.balance(h, b) + delta(h, b, Holder::Free(recipient), asset@, net as int)
                    + delta(h, b, Holder::Fees, asset@, kept as int) by {
                    assert(l1.balance(h, b) == old_state.ledger.balance(h, b) + delta(h, b, Holder::Free(recipient), asset@, net as int));
                }
                assert forall|b: Seq<char>| #[trigger] self.state.ledger.deposits(b)
                    == old_state.ledger.deposits(b) + if b == asset@ { amount as int } else { 0 } by {
                    assert(l1.deposits(b) == old_state.ledger.deposits(b) + if b == asset@ { net as int } else { 0 });
                }
                assert forall|b: Seq<char>| #[trigger] self.state.ledger.withdrawals(b) == old_state.ledger.withdrawals(b) by {
                    assert(l1.withdrawals(b) == old_state.ledger.withdrawals(b));
                }
            }
        }
        let id = self.state.next_transfer_id;
        let threshold = self.required_weight();
        let expires_at = deadline(now, TRANSFER_TIMEOUT_SECONDS);
        let t = BridgeTransfer {
            id,
            direction: TransferDirection::Inbound,
            source_chain,
            destination_chain: None,
            user: recipient,
            external_address: source_address,
            asset,
            amount,
            fee,
            net_amount: net,
            source_tx_hash: Some(tx_hash),
            destination_tx_hash: None,
            status: if confirmed { TransferStatus::Completed } else { TransferStatus::Confirming },
            confirmations,
            required_confirmations: required,
            created_at: now,
            completed_at: if confirmed { Some(now) } else { None },
            expires_at,
            approvals: Vec::new(),
            approval_threshold: threshold,
            retry_count: 0,
        };
        let ghost tg = t;
        proof {
            assert forall|j: int| 0 <= j < old_state.transfers@.len() implies inbound_hash(#[trigger] old_state.transfers@[j]) != inbound_hash(tg) by {
                if inbound_hash(old_state.transfers@[j]) == inbound_hash(tg) {
                    assert(old_state.seen_hash(tx_hash@));
                }
            }
            lemma_transfers_push(old_state.transfers@, tg);
            lemma_queue_push(old_state.expiration_queue@, old_state.transfers@, tg);
        }
        self.state.transfers.push(t);
        self.state.next_transfer_id = id + 1;
        if confirmed {
            self.state.stats.total_inbound_transfers = self.state.stats.total_inbound_transfers.saturating_add(1);
            self.state.stats.total_inbound_volume = self.state.stats.total_inbound_volume.saturating_add(net);
            self.state.stats.total_fees_collected = self.state.stats.total_fees_collected.saturating_add(kept);
        } else {
            self.state.expiration_queue.push((expires_at, id));
            self.state.stats.pending_transfers = self.state.stats.pending_transfers.saturating_add(1);
        }
        proof {
            assert(self.state.transfers@ =~= old_state.transfers@.push(tg));
            assert(self.state.transfers@.drop_last() =~= old_state.transfers@);
        }
        Ok(id)
    }

    /// What `update_confirmations` returns.
    pub open spec fn confirmations_outcome(&self, id: TransferId, confirmations: u64) -> Result<(), BridgeError> {
        let st = self.state;
        if st.is_paused {
            Err(BridgeError::Paused)
        } else if !st.has(id as int) {
            Err(BridgeError::TransferNotFound { transfer_id: id })
        } else {
            let t = st.get(id as int);
            if t.status != TransferStatus::Confirming {
                Err(BridgeError::InvalidStatus { status: t.status })
            } else if confirmations >= t.required_confirmations && t.direction == TransferDirection::Inbound
                && st.ledger.supply(t.asset@) + t.amount > u128::MAX {
                Err(BridgeError::Overflow)
            } else {
                Ok(())
            }
        }
    }

    /// `self` is `prev` after transfer `id` was seen with `confirmations` at `now`.
    pub open spec fn confirmations_recorded(&self, prev: &Self, id: TransferId, now: Timestamp, confirmations: u64) -> bool {
        let t = prev.state.get(id as int);
        let t2 = self.state.get(id as int);
        &&& self.state.others_unchanged(&prev.state, id as int)
        &&& same_terms(t, t2)
        &&& t2.confirmations == confirmations
        &&& if confirmations < t.required_confirmations {
            &&& t2.status == TransferStatus::Confirming
            &&& self.state.ledger == prev.state.ledger
        } else if t.direction == TransferDirection::Inbound {
            &&& t2.status == TransferStatus::Completed
            &&& t2.completed_at == Some(now)
            &&& self.state.ledger.moved(&prev.state.ledger, t.asset@, Holder::Free(t.user), t.net_amount as int, Holder::Fees, t.amount - t.net_amount)
            &&& self.state.ledger.flows(&prev.state.ledger, t.asset@, t.amount as int, 0)
        } else {
            &&& t2.status == TransferStatus::Approved
            &&& self.state.ledger == prev.state.ledger
        }
    }

    /// Records how many confirmations a confirming transfer has. Once there
    /// are enough, an inbound transfer completes: the recipient is credited the
    /// net amount and the fee is collected.
    pub fn update_confirmations(&mut self, now: Timestamp, id: TransferId, confirmations: u64) -> (r: Result<(), BridgeError>)
        requires
            old(self).state.wf(),
        ensures
            final(self).state.wf(),
            r == old(self).confirmations_outcome(id, confirmations),
            r is Err ==> final(self).state.same_as(&old(self).state),
            r is Ok ==> final(self).confirmations_recorded(old(self), id, now, confirmations),
    {
        if self.state.is_paused {
            return Err(BridgeError::Paused);
        }
        if id == 0 || id >= self.state.next_transfer_id {
            return Err(BridgeError::TransferNotFound { transfer_id: id });
        }
        let idx = slot(id, self.state.transfers.len());
        let status = self.state.transfers[idx].status;
        if status != TransferStatus::Confirming {
            return Err(BridgeError::InvalidStatus { status });
        }
        let confirmed = confirmations >= self.state.transfers[idx].required_confirmations;
        let inbound = self.state.transfers[idx].direction == TransferDirection::Inbound;
        if confirmed && inbound {
            let supply = self.state.ledger.supply_of(&self.state.transfers[idx].asset);
            if supply > u128::MAX - self.state.transfers[idx].amount {
                return Err(BridgeError::Overflow);
            }
        }
        let ghost old_state = self.state;
        let mut t = self.state.transfers.remove(idx);
        let ghost tg0 = t;
        proof {
            assert(fee_split_ok(tg0));
        }
        t.confirmations = confirmations;
        if confirmed {
            if inbound {
                let kept = t.amount - t.net_amount;
                match self.state.ledger.credit(t.user, &t.asset, t.net_amount) {
                    Ok(()) => {},
                    Err(_) => {
                        self.state.transfers.insert(idx, t);
                        proof {
                            old_state.ledger.lemma_supply(tg0.asset@);
                        }
                        return Err(BridgeError::Overflow);
                    },
                }
                let ghost l1 = self.state.ledger;
                match self.state.ledger.credit_fees(&t.asset, kept) {
                    Ok(()) => {},
                    Err(_) => {
                        self.state.transfers.insert(idx, t);
                        proof {
                            l1.lemma_supply(tg0.asset@);
                            old_state.ledger.lemma_supply(tg0.asset@);
                        }
                        return Err(BridgeError::Overflow);
                    },
                }
                proof {
                    let a = tg0.asset@;
                    assert forall|h: Holder, b: Seq<char>| #[trigger] self.state.ledger.balance(h, b)
                        == old_state.ledger.balance(h, b) + delta(h, b, Holder::Free(tg0.user), a, tg0.net_amount as int)
                        + delta(h, b, Holder::Fees, a, kept as int) by {
                        assert(l1.balance(h, b) == old_state.ledger.balance(h, b) + delta(h, b, Holder::Free(tg0.user), a, tg0.net_amount as int));
                    }
                    assert forall|b: Seq<char>| #[trigger] self.state.ledger.deposits(b)
                        == old_state.ledger.deposits(b) + if b == a { tg0.amount as int } else { 0 } by {
                        assert(l1.deposits(b) == old_state.ledger.deposits(b) + if b == a { tg0.net_amount as int } else { 0 });
                    }
                    assert forall|b: Seq<char>| #[trigger] self.state.ledger.withdrawals(b) == old_state.ledger.withdrawals(b) by {
                        assert(l1.withdrawals(b) == old_state.ledger.withdrawals(b));
                    }
                }
                t.status = TransferStatus::Completed;
                t.completed_at = Some(now);
                self.state.stats.total_inbound_transfers = self.state.stats.total_inbound_transfers.saturating_add(1);
                self.state.stats.total_inbound_volume = self.state.stats.total_inbound_volume.saturating_add(t.net_amount);
                self.state.stats.total_fees_collected = self.state.stats.total_fees_collected.saturating_add(kept);
                self.state.stats.pending_transfers = self.state.stats.pending_transfers.saturating_sub(1);
            } else {
                t.status = TransferStatus::Approved;
            }
        }
        self.state.transfers.insert(idx, t);
        proof {
            let s2 = self.state.transfers@;
            assert(s2 =~= old_state.transfers@.update(idx as int, s2[idx as int]));
            lemma_transfers_update(old_state.transfers@, idx as int, s2[idx as int]);
            lemma_queue_update(old_state.expiration_queue@, old_state.transfers@, idx as int, s2[idx as int]);
        }
        Ok(())
    }

    /// What `approve_transfer` returns.
    pub open spec fn approve_outcome(&self, caller: Account, id: TransferId) -> Result<(), BridgeError> {
        let st = self.state;
        if st.is_paused {
            Err(BridgeError::Paused)
        } else if !has_validator(st.validators@, caller) {
            Err(BridgeError::ValidatorNotFound { address: caller })
        } else if !validator_cfg(st.validators@, caller).is_active {
            Err(BridgeError::ValidatorInactive { address: caller })
        } else if !st.has(id as int) {
            Err(BridgeError::TransferNotFound { transfer_id: id })
        } else {
            let t = st.get(id as int);
            if t.status != TransferStatus::AwaitingApproval && t.status != TransferStatus::Approved {
                Err(BridgeError::InvalidStatus { status: t.status })
            } else if exists|i: int| 0 <= i < t.approvals@.len() && (#[trigger] t.approvals@[i]).validator == caller {
                Err(BridgeError::AlreadyApproved)
            } else {
                Ok(())
            }
        }
    }

    /// `self` is `prev` after validator `caller` approved transfer `id` at `now`
    /// with `signature`: the approval is appended, and the transfer is approved
    /// once the approvals weigh enough.
    pub open spec fn approval_recorded(&self, prev: &Self, caller: Account, id: TransferId, now: Timestamp, signature: Seq<u8>) -> bool {
        let st = prev.state;
        let t = st.get(id as int);
        let t2 = self.state.get(id as int);
        &&& self.state.others_unchanged(&st, id as int)
        &&& same_terms(t, t2)
        &&& t2.approvals@.drop_last() == t.approvals@
        &&& t2.approvals@.len() == t.approvals@.len() + 1
        &&& t2.approvals@.last().validator == caller
        &&& t2.approvals@.last().approved
        &&& t2.approvals@.last().timestamp == now
        &&& t2.approvals@.last().signature@ == signature
        &&& t2.status == if approval_weight(st.validators@, t2.approvals@) >= spec_required_weight(
            st.total_validator_weight,
            st.approval_threshold_percentage,
        ) {
            TransferStatus::Approved
        } else {
            t.status
        }
        &&& self.state.ledger == st.ledger
        &&& self.state.expiration_queue@ == st.expiration_queue@
        &&& self.state.next_transfer_id == st.next_transfer_id
    }

    /// Records the approval of an active validator. Once the weight of the
    /// approvals reaches the required share of the total weight, the transfer
    /// is approved.
    #[verifier::loop_isolation(false)]
    pub fn approve_transfer(&mut self, caller: Account, now: Timestamp, id: TransferId, signature: Vec<u8>) -> (r: Result<(), BridgeError>)
        requires
            old(self).state.wf(),
        ensures
            final(self).state.wf(),
            r == old(self).approve_outcome(caller, id),
            r is Err ==> final(self).state.same_as(&old(self).state),
            r is Ok ==> final(self).approval_recorded(old(self), caller, id, now, signature@),
    {
        if self.state.is_paused {
            return Err(BridgeError::Paused);
        }
        match self.state.find_validator(caller) {
            Some(k) => {
                if !self.state.validators[k].is_active {
                    return Err(BridgeError::ValidatorInactive { address: caller });
                }
            },
            None => {
                return Err(BridgeError::ValidatorNotFound { address: caller });
            },
        }
        if id == 0 || id >= self.state.next_transfer_id {
            return Err(BridgeError::TransferNotFound { transfer_id: id });
        }
        let idx = slot(id, self.state.transfers.len());
        let status = self.state.transfers[idx].status;
        if status != TransferStatus::AwaitingApproval && status != TransferStatus::Approved {
            return Err(BridgeError::InvalidStatus { status });
        }
        let mut j: usize = 0;
        while j < self.state.transfers[idx].approvals.len()
            invariant
                idx < self.state.transfers@.len(),
                j <= self.state.transfers@[idx as int].approvals@.len(),
                forall|i: int| 0 <= i < j ==> (#[trigger] self.state.transfers@[idx as int].approvals@[i]).validator != caller,
            decreases self.state.transfers@[idx as int].approvals@.len() - j,
        {
            if self.state.transfers[idx].approvals[j].validator == caller {
                return Err(BridgeError::AlreadyApproved);
            }
            j = j + 1;
        }
        let ghost old_state = self.state;
        let required = self.required_weight();
        let mut t = self.state.transfers.remove(idx);
        let ghost tg0 = t;
        t.approvals.push(ValidatorApproval { validator: caller, approved: true, signature, timestamp: now });
        let weight = self.state.weigh(&t.approvals);
        if weight >= required as u128 {
            t.status = TransferStatus::Approved;
        }
        proof {
            assert(approvals_unique(tg0.approvals@));
            let aps = t.approvals@;
            assert forall|a: int, b: int| 0 <= a < b < aps.len() implies #[trigger] aps[a].validator != #[trigger] aps[b].validator by {
                if b < tg0.approvals@.len() {
                    assert(aps[a] == tg0.approvals@[a] && aps[b] == tg0.approvals@[b]);
                } else {
                    assert(aps[a] == tg0.approvals@[a]);
                }
            }
            assert(aps.drop_last() =~= tg0.approvals@);
        }
        self.state.transfers.insert(idx, t);
        proof {
            let s2 = self.state.transfers@;
            assert(s2 =~= old_state.transfers@.update(idx as int, s2[idx as int]));
            lemma_transfers_update(old_state.transfers@, idx as int, s2[idx as int]);
            lemma_queue_update(old_state.expiration_queue@, old_state.transfers@, idx as int, s2[idx as int]);
        }
        Ok(())
    }

    /// What `execute_transfer` returns.
    pub open spec fn execute_outcome(&self, now: Timestamp, id: TransferId) -> Result<(), BridgeError> {
        let st = self.state;
        if st.is_paused {
            Err(BridgeError::Paused)
        } else if !st.has(id as int) {
            Err(BridgeError::TransferNotFound { transfer_id: id })
        } else if st.get(id as int).status != TransferStatus::Approved {
            Err(BridgeError::InvalidStatus { status: st.get(id as int).status })
        } else if now > st.get(id as int).expires_at {
            Err(BridgeError::Expired)
        } else {
            Ok(())
        }
    }

    /// `self` is `prev` after transfer `id` was handed to the relayer.
    pub open spec fn transfer_executing(&self, prev: &Self, id: TransferId) -> bool {
self.state.others_unchanged(&prev.state, id as int)
        && same_terms(prev.state.get(id as int), self.state.get(id as int))
        && self.state.get(id as int).status == TransferStatus::Executing
        && self.state.ledger == prev.state.ledger
    }

    /// Hands an approved transfer to the relayer.
    pub fn execute_transfer(&mut self, now: Timestamp, id: TransferId) -> (r: Result<(), BridgeError>)
        requires
            old(self).state.wf(),
        ensures
            final(self).state.wf(),
            r == old(self).execute_outcome(now, id),
            r is Err ==> final(self).state.same_as(&old(self).state),
            r is Ok ==> final(self).transfer_executing(old(self), id),
    {
        if self.state.is_paused {
            return Err(BridgeError::Paused);
        }
        if id == 0 || id >= self.state.next_transfer_id {
            return Err(BridgeError::TransferNotFound { transfer_id: id });
        }
        let idx = slot(id, self.state.transfers.len());
        let status = self.state.transfers[idx].status;
        if status != TransferStatus::Approved {
            return Err(BridgeError::InvalidStatus { status });
        }
        if now > self.state.transfers[idx].expires_at {
            return Err(BridgeError::Expired);
        }
        let ghost old_state = self.state;
        let mut t = self.state.transfers.remove(idx);
        t.status = TransferStatus::Executing;
        self.state.transfers.insert(idx, t);
        proof {
            let s2 = self.state.transfers@;
            assert(s2 =~= old_state.transfers@.update(idx as int, s2[idx as int]));
            lemma_transfers_update(old_state.transfers@, idx as int, s2[idx as int]);
            lemma_queue_update(old_state.expiration_queue@, old_state.transfers@, idx as int, s2[idx as int]);
        }
        Ok(())
    }

    /// What `complete_withdrawal` returns.
    pub open spec fn completion_outcome(&self, id: TransferId, success: bool) -> Result<(), BridgeError> {
        let st = self.state;
        if st.is_paused {
            Err(BridgeError::Paused)
        } else if !st.has(id as int) {
            Err(BridgeError::TransferNotFound { transfer_id: id })
        } else {
            let t = st.get(id as int);
            if t.direction != TransferDirection::Outbound || t.status != TransferStatus::Executing {
                Err(BridgeError::InvalidStatus { status: t.status })
            } else if !success && st.ledger.supply(t.asset@) + t.net_amount > u128::MAX {
                Err(BridgeError::Overflow)
            } else {
                Ok(())
            }
        }
    }

    /// `self` is `prev` after the relayer reported how withdrawal `id` ended.
    pub open spec fn withdrawal_ended(&self, prev: &Self, id: TransferId, now: Timestamp, tx_hash: String, success: bool) -> bool {
        let t = prev.state.get(id as int);
        let t2 = self.state.get(id as int);
        &&& self.state.others_unchanged(&prev.state, id as int)
        &&& same_terms(t, t2)
        &&& if success {
            &&& t2.status == TransferStatus::Completed
            &&& t2.destination_tx_hash == Some(tx_hash)
            &&& t2.completed_at == Some(now)
            &&& self.state.ledger == prev.state.ledger
        } else {
            &&& t2.status == TransferStatus::Failed
            &&& self.state.ledger.changed(&prev.state.ledger, t.asset@, Holder::Free(t.user), t.net_amount as int)
            &&& self.state.ledger.flows(&prev.state.ledger, t.asset@, t.net_amount as int, 0)
        }
    }

    /// Records how an executing withdrawal ended on the destination chain. On
    /// failure the user gets the net amount back; the fee is kept.
    pub fn complete_withdrawal(&mut self, now: Timestamp, id: TransferId, tx_hash: String, success: bool) -> (r: Result<(), BridgeError>)
        requires
            old(self).state.wf(),
        ensures
            final(self).state.wf(),
            r == old(self).completion_outcome(id, success),
            r is Err ==> final(self).state.same_as(&old(self).state),
            r is Ok ==> final(self).withdrawal_ended(old(self), id, now, tx_hash, success),
    {
        if self.state.is_paused {
            return Err(BridgeError::Paused);
        }
        if id == 0 || id >= self.state.next_transfer_id {
            return Err(BridgeError::TransferNotFound { transfer_id: id });
        }
        let idx = slot(id, self.state.transfers.len());
        let status = self.state.transfers[idx].status;
        if self.state.transfers[idx].direction != TransferDirection::Outbound || status != TransferStatus::Executing {
            return Err(BridgeError::InvalidStatus { status });
        }
        let ghost old_state = self.state;
        let mut t = self.state.transfers.remove(idx);
        if success {
            t.status = TransferStatus::Completed;
            t.destination_tx_hash = Some(tx_hash);
            t.completed_at = Some(now);
        } else {
            match self.state.ledger.credit(t.user, &t.asset, t.net_amount) {
                Ok(()) => {},
                Err(_) => {
                    self.state.transfers.insert(idx, t);
                    proof {
                        assert(self.state.transfers@ =~= old_state.transfers@);
                    }
                    return Err(BridgeError::Overflow);
                },
            }
            t.status = TransferStatus::Failed;
            self.state.stats.failed_transfers = self.state.stats.failed_transfers.saturating_add(1);
        }
        self.state.stats.pending_transfers = self.state.stats.pending_transfers.saturating_sub(1);
        self.state.transfers.insert(idx, t);
        proof {
            let s2 = self.state.transfers@;
            assert(s2 =~= old_state.transfers@.update(idx as int, s2[idx as int]));
            lemma_transfers_update(old_state.transfers@, idx as int, s2[idx as int]);
            lemma_queue_update(old_state.expiration_queue@, old_state.transfers@, idx as int, s2[idx as int]);
        }
        Ok(())
    }

    /// Whether the net amount of `t` is owed back to its user on a refund: it
    /// is an outbound transfer whose funds left the ledger and never came back.
    pub open spec fn refund_owed(t: BridgeTransfer) -> bool {
        t.direction == TransferDirection::Outbound && t.status != TransferStatus::Failed && t.status
            != TransferStatus::Completed && t.status != TransferStatus::Refunded
    }

    /// What `claim_refund` returns.
    pub open spec fn refund_outcome(&self, caller: Account, now: Timestamp, id: TransferId) -> Result<(), BridgeError> {
        let st = self.state;
        if st.is_paused {
            Err(BridgeError::Paused)
        } else if !st.has(id as int) {
            Err(BridgeError::TransferNotFound { transfer_id: id })
        } else {
            let t = st.get(id as int);
            if t.user != caller {
                Err(BridgeError::Unauthorized)
            } else if t.status == TransferStatus::Refunded {
                Err(BridgeError::AlreadyProcessed)
            } else if !(t.status == TransferStatus::Failed || t.status == TransferStatus::Expired
                || (t.status != TransferStatus::Completed && now > t.expires_at)) {
                Err(BridgeError::InvalidStatus { status: t.status })
            } else if Self::refund_owed(t) && st.ledger.supply(t.asset@) + t.net_amount > u128::MAX {
                Err(BridgeError::Overflow)
            } else {
                Ok(())
            }
        }
    }

    /// `self` is `prev` after transfer `id` was closed as refunded at `now`.
    pub open spec fn refund_recorded(&self, prev: &Self, id: TransferId, now: Timestamp) -> bool {
        let t = prev.state.get(id as int);
        let t2 = self.state.get(id as int);
        &&& self.state.others_unchanged(&prev.state, id as int)
        &&& same_terms(t, t2)
        &&& t2.status == TransferStatus::Refunded
        &&& t2.completed_at == Some(now)
        &&& if Self::refund_owed(t) {
            &&& self.state.ledger.changed(&prev.state.ledger, t.asset@, Holder::Free(t.user), t.net_amount as int)
            &&& self.state.ledger.flows(&prev.state.ledger, t.asset@, t.net_amount as int, 0)
        } else {
            self.state.ledger == prev.state.ledger
        }
    }

    /// Closes a failed or expired transfer, or one past its deadline, as
    /// refunded. An outbound transfer whose funds never came back returns its
    /// net amount to the user.
    pub fn claim_refund(&mut self, caller: Account, now: Timestamp, id: TransferId) -> (r: Result<(), BridgeError>)
        requires
            old(self).state.wf(),
        ensures
            final(self).state.wf(),
            r == old(self).refund_outcome(caller, now, id),
            r is Err ==> final(self).state.same_as(&old(self).state),
            r is Ok ==> final(self).refund_recorded(old(self), id, now),
    {
        if self.state.is_paused {
            return Err(BridgeError::Paused);
        }
        if id == 0 || id >= self.state.next_transfer_id {
            return Err(BridgeError::TransferNotFound { transfer_id: id });
        }
        let idx = slot(id, self.state.transfers.len());
        if self.state.transfers[idx].user != caller {
            return Err(BridgeError::Unauthorized);
        }
        let status = self.state.transfers[idx].status;
        if status == TransferStatus::Refunded {
            return Err(BridgeError::AlreadyProcessed);
        }
        if !(status == TransferStatus::Failed || status == TransferStatus::Expired
            || (status != TransferStatus::Completed && now > self.state.transfers[idx].expires_at)) {
            return Err(BridgeError::InvalidStatus { status });
        }
        let owed = self.state.transfers[idx].direction == TransferDirection::Outbound
            && status != TransferStatus::Failed && status != TransferStatus::Completed;
        let ghost old_state = self.state;
        let mut t = self.state.transfers.remove(idx);
        if owed {
            match self.state.ledger.credit(t.user, &t.asset, t.net_amount) {
                Ok(()) => {},
                Err(_) => {
                    self.state.transfers.insert(idx, t);
                    proof {
                        assert(self.state.transfers@ =~= old_state.transfers@);
                    }
                    return Err(BridgeError::Overflow);
                },
            }
        }
        t.status = TransferStatus::Refunded;
        t.completed_at = Some(now);
        self.state.transfers.insert(idx, t);
        proof {
            let s2 = self.state.transfers@;
            assert(s2 =~= old_state.transfers@.update(idx as int, s2[idx as int]));
            lemma_transfers_update(old_state.transfers@, idx as int, s2[idx as int]);
            lemma_queue_update(old_state.expiration_queue@, old_state.transfers@, idx as int, s2[idx as int]);
        }
        Ok(())
    }

    /// `self` is `prev` after the due entries at the front of the expiration
    /// queue were taken off and the `n` transfers they named that could still
    /// expire were expired at `now`; at most `EXPIRY_BATCH` of them.
    pub open spec fn expiry_processed(&self, prev: &Self, now: Timestamp, n: int) -> bool {
        &&& n <= EXPIRY_BATCH
        &&& self.state.transfers@.len() == prev.state.transfers@.len()
        &&& forall|i: int| 0 <= i < prev.state.transfers@.len() ==> {
            let t = prev.state.transfers@[i];
            let t2 = #[trigger] self.state.transfers@[i];
            t2 == t || (Self::expirable(t.status) && t2.status == TransferStatus::Expired && same_terms(t, t2))
        }
        &&& exists|k: int| 0 <= k <= prev.state.expiration_queue@.len()
            && self.state.expiration_queue@ == prev.state.expiration_queue@.skip(k)
            && (forall|j: int| 0 <= j < k ==> (#[trigger] prev.state.expiration_queue@[j]).0 <= now)
            && forall|i: int| 0 <= i < prev.state.transfers@.len()
                && #[trigger] self.state.transfers@[i] != prev.state.transfers@[i]
                ==> exists|j: int| 0 <= j < k && prev.state.expiration_queue@[j].1 == i + 1
        &&& n < EXPIRY_BATCH ==> self.state.expiration_queue@.len() == 0
            || self.state.expiration_queue@[0].0 > now
        // only transfers past their deadline change
        &&& forall|i: int| 0 <= i < prev.state.transfers@.len()
            && #[trigger] self.state.transfers@[i] != prev.state.transfers@[i] ==> prev.state.transfers@[i].expires_at <= now
        &&& n == changed_count(prev.state.transfers@, self.state.transfers@, prev.state.transfers@.len() as int)
        &&& self.state.ledger == prev.state.ledger
        &&& self.state.config_unchanged(&prev.state)
        &&& self.state.next_transfer_id == prev.state.next_transfer_id
    }

    /// Expires, oldest first, the pending, confirming, awaiting or executing
    /// transfers in the expiration queue whose deadline has passed; at most
    /// `EXPIRY_BATCH` of them per call. Returns how many it expired.
    pub fn process_expired_transfers(&mut self, now: Timestamp) -> (r: Result<u64, BridgeError>)
        requires
            old(self).state.wf(),
        ensures
            final(self).state.wf(),
            r is Err <==> old(self).state.is_paused,
            r is Err ==> r == Err::<u64, BridgeError>(BridgeError::Paused) && final(self).state.same_as(&old(self).state),
            r matches Ok(n) ==> final(self).expiry_processed(old(self), now, n as int),
    {
        if self.state.is_paused {
            proof {
                assert(self.state.expiration_queue@.skip(0) =~= self.state.expiration_queue@);
            }
            return Err(BridgeError::Paused);
        }
        let ghost old_state = self.state;
        let ghost old_q = self.state.expiration_queue@;
        let ghost mut k: int = 0;
        let mut processed: u64 = 0;
        let mut done = false;
        proof {
            lemma_nothing_changed(old_state.transfers@, old_state.transfers@.len() as int);
        }
        while processed < EXPIRY_BATCH && !done
            invariant
                self.state.wf(),
                processed <= EXPIRY_BATCH,
                0 <= k <= old_q.len(),
                self.state.expiration_queue@ == old_q.skip(k),
                forall|j: int| 0 <= j < k ==> (#[trigger] old_q[j]).0 <= now,
                forall|i: int| 0 <= i < old_state.transfers@.len() && #[trigger] self.state.transfers@[i] != old_state.transfers@[i]
                    ==> exists|j: int| 0 <= j < k && old_q[j].1 == i + 1,
                done ==> self.state.expiration_queue@.len() == 0 || self.state.expiration_queue@[0].0 > now,
                self.state.transfers@.len() == old_state.transfers@.len(),
                processed == changed_count(old_state.transfers@, self.state.transfers@, old_state.transfers@.len() as int),
                forall|i: int| 0 <= i < old_state.transfers@.len() ==> {
                    let t = old_state.transfers@[i];
                    let t2 = #[trigger] self.state.transfers@[i];
                    t2 == t || (Self::expirable(t.status) && t2.status == TransferStatus::Expired && same_terms(t, t2))
                },
                self.state.ledger == old_state.ledger,
                self.state.config_unchanged(&old_state),
            decreases EXPIRY_BATCH - processed + self.state.expiration_queue@.len() + if done { 0int } else { 1int },
        {
            if self.state.expiration_queue.len() == 0 {
                done = true;
            } else {
                let (expires_at, id) = self.state.expiration_queue[0];
                if expires_at > now {
                    done = true;
                } else {
                    let ghost before = self.state;
                    self.state.expiration_queue.remove(0);
                    proof {
                        assert(self.state.expiration_queue@ =~= old_q.skip(k + 1));
                        assert(self.state.expiration_queue@ =~= before.expiration_queue@.subrange(1, before.expiration_queue@.len() as int));
                        lemma_queue_tail(before.expiration_queue@, before.transfers@);
                        assert(old_q[k] == before.expiration_queue@[0]);
                        k = k + 1;
                    }
                    if id >= 1 && id < self.state.next_transfer_id {
                        let idx = slot(id, self.state.transfers.len());
                        let status = self.state.transfers[idx].status;
                        if status == TransferStatus::Pending || status == TransferStatus::Confirming
                            || status == TransferStatus::AwaitingApproval || status == TransferStatus::Executing {
                            let ghost mid = self.state;
                            let mut t = self.state.transfers.remove(idx);
                            t.status = TransferStatus::Expired;
                            self.state.transfers.insert(idx, t);
                            self.state.stats.failed_transfers = self.state.stats.failed_transfers.saturating_add(1);
                            self.state.stats.pending_transfers = self.state.stats.pending_transfers.saturating_sub(1);
                            processed = processed + 1;
                            proof {
                                let s2 = self.state.transfers@;
                                assert(s2 =~= mid.transfers@.update(idx as int, s2[idx as int]));
                                lemma_transfers_update(mid.transfers@, idx as int, s2[idx as int]);
                                lemma_queue_update(mid.expiration_queue@, mid.transfers@, idx as int, s2[idx as int]);
                                assert(mid.transfers@[idx as int] == old_state.transfers@[idx as int]);
                                lemma_one_more_changed(old_state.transfers@, mid.transfers@, idx as int, s2[idx as int], old_state.transfers@.len() as int);
                                assert forall|i: int| 0 <= i < old_state.transfers@.len() implies {
                                    let t = old_state.transfers@[i];
                                    let t2 = #[trigger] self.state.transfers@[i];
                                    t2 == t || (Self::expirable(t.status) && t2.status == TransferStatus::Expired && same_terms(t, t2))
                                } by {
                                    let t0 = old_state.transfers@[i];
                                    let tm = mid.transfers@[i];
                                    assert(tm == t0 || (Self::expirable(t0.status) && tm.status == TransferStatus::Expired && same_terms(t0, tm)));
                                }
                                assert forall|i: int| 0 <= i < old_state.transfers@.len() && #[trigger] self.state.transfers@[i] != old_state.transfers@[i]
                                    implies exists|j: int| 0 <= j < k && old_q[j].1 == i + 1 by {
                                    if i == idx {
                                        assert(old_q[k - 1].1 == i + 1);
                                    } else {
                                        assert(self.state.transfers@[i] == mid.transfers@[i]);
                                        assert(mid.transfers@[i] != old_state.transfers@[i]);
                                        let j0 = choose|j: int| 0 <= j < k - 1 && old_q[j].1 == i + 1;
                                        assert(0 <= j0 < k && old_q[j0].1 == i + 1);
                                    }
                                }
                            }
                        }
                    }
                }
            }
        }
        proof {
            let kk = choose|kk: int| 0 <= kk <= old_q.len() && self.state.expiration_queue@ == old_q.skip(kk)
                && (forall|j: int| 0 <= j < kk ==> (#[trigger] old_q[j]).0 <= now)
                && forall|i: int| 0 <= i < old_state.transfers@.len()
                    && #[trigger] self.state.transfers@[i] != old_state.transfers@[i]
                    ==> exists|j: int| 0 <= j < kk && old_q[j].1 == i + 1;
            assert forall|i: int| 0 <= i < old_state.transfers@.len()
                && #[trigger] self.state.transfers@[i] != old_state.transfers@[i] implies old_state.transfers@[i].expires_at <= now by {
                let j = choose|j: int| 0 <= j < kk && old_q[j].1 == i + 1;
                assert(old_q[j].0 <= now);
                assert(old_q[j].0 == old_state.transfers@[old_q[j].1 - 1].expires_at);
            }
        }
        Ok(processed)
    }

    /// A status from which a transfer may expire.
    pub open spec fn expirable(st: TransferStatus) -> bool {
        st == TransferStatus::Pending || st == TransferStatus::Confirming || st
            == TransferStatus::AwaitingApproval || st == TransferStatus::Executing
    }
}

/// A request to the bridge.
#[derive(Debug)]
pub enum Operation {
    /// Withdraw to an external chain.
    InitiateWithdrawal { destination_chain: ExternalChain, destination_address: String, asset: String, amount: Amount },
    /// A relayer reports a deposit made on an external chain.
    ReportDeposit {
        source_chain: ExternalChain,
        tx_hash: String,
        source_address: String,
        recipient: Account,
        asset: String,
        amount: Amount,
        confirmations: u64,
    },
    UpdateConfirmations { transfer_id: TransferId, confirmations: u64 },
    /// A validator approves a transfer.
    ApproveTransfer { transfer_id: TransferId, signature: Vec<u8> },
    ExecuteTransfer { transfer_id: TransferId },
    /// A relayer reports how a withdrawal ended.
    CompleteWithdrawal { transfer_id: TransferId, tx_hash: String, success: bool },
    ClaimRefund { transfer_id: TransferId },
    ProcessExpiredTransfers,
    ConfigureChain { config: ChainConfig },
    DisableChain { chain: ExternalChain },
    AddValidator { config: ValidatorConfig },
    RemoveValidator { validator: Account },
    UpdateFees { chain: ExternalChain, base_fee: Option<Amount>, fee_percentage_bps: Option<u64> },
    EmergencyPause,
    Resume,
}

/// A message between the bridge and its relayers and validators.
#[derive(Debug)]
pub enum Message {
    /// A relayer saw a deposit.
    DepositNotification { chain: ExternalChain, tx_hash: String, recipient: Account, asset: String, amount: Amount, confirmations: u64 },
    /// A withdrawal for the relayer to carry out.
    WithdrawalRequest { transfer_id: TransferId, chain: ExternalChain, recipient_address: String, asset: String, amount: Amount },
    TransferUpdate { transfer_id: TransferId, status: TransferStatus, tx_hash: Option<String> },
    /// A validator's verdict on a transfer.
    ValidatorSignature { transfer_id: TransferId, validator: Account, signature: Vec<u8>, approved: bool },
}

/// `r` without its success value.
pub open spec fn unit_of<T>(r: Result<T, BridgeError>) -> Result<(), BridgeError> {
    match r {
        Ok(_) => Ok(()),
        Err(e) => Err(e),
    }
}

/// An operation that a pause does not stop: pausing and resuming.
pub open spec fn is_admin(op: Operation) -> bool {
    op is EmergencyPause || op is Resume
}

impl BridgeContract {
    /// Carries out one request from `caller` at time `now`. While the bridge
    /// is paused, every request but pausing and resuming fails with `Paused`.
    pub fn execute_operation(&mut self, caller: Account, now: Timestamp, operation: Operation) -> (r: Result<(), BridgeError>)
        requires
            old(self).state.wf(),
            old(self).state.transfers@.len() + 1 < u64::MAX,
        ensures
            final(self).state.wf(),
            r is Err ==> final(self).state.same_as(&old(self).state),
            old(self).state.is_paused && !is_admin(operation) ==> r == Err::<(), BridgeError>(BridgeError::Paused),
            !old(self).state.is_paused || is_admin(operation) ==> match operation {
                Operation::InitiateWithdrawal { destination_chain, destination_address, asset, amount } => {
                    &&& r == unit_of(old(self).withdrawal_outcome(caller, destination_chain, destination_address@, asset@, amount))
                    &&& r is Ok ==> final(self).withdrawal_started(old(self), old(self).state.next_transfer_id, now, caller,
                        destination_chain, destination_address@, asset@, amount)
                },
                Operation::ReportDeposit { source_chain, tx_hash, recipient, asset, amount, confirmations, .. } => {
                    &&& r == unit_of(old(self).deposit_outcome(source_chain, tx_hash@, asset@, amount, confirmations))
                    &&& r is Ok ==> final(self).deposit_recorded(old(self), old(self).state.next_transfer_id, now, source_chain,
                        tx_hash@, recipient, asset@, amount, confirmations)
                },
                Operation::UpdateConfirmations { transfer_id, confirmations } => {
                    &&& r == old(self).confirmations_outcome(transfer_id, confirmations)
                    &&& r is Ok ==> final(self).confirmations_recorded(old(self), transfer_id, now, confirmations)
                },
                Operation::ApproveTransfer { transfer_id, signature } => {
                    &&& r == old(self).approve_outcome(caller, transfer_id)
                    &&& r is Ok ==> final(self).approval_recorded(old(self), caller, transfer_id, now, signature@)
                },
                Operation::ExecuteTransfer { transfer_id } => {
                    &&& r == old(self).execute_outcome(now, transfer_id)
                    &&& r is Ok ==> final(self).transfer_executing(old(self), transfer_id)
                },
                Operation::CompleteWithdrawal { transfer_id, tx_hash, success } => {
                    &&& r == old(self).completion_outcome(transfer_id, success)
                    &&& r is Ok ==> final(self).withdrawal_ended(old(self), transfer_id, now, tx_hash, success)
                },
                Operation::ClaimRefund { transfer_id } => {
                    &&& r == old(self).refund_outcome(caller, now, transfer_id)
                    &&& r is Ok ==> final(self).refund_recorded(old(self), transfer_id, now)
                },
                Operation::ProcessExpiredTransfers => r is Ok && exists|n: int| final(self).expiry_processed(old(self), now, n),
                Operation::ConfigureChain { config } => r is Ok && has_chain(final(self).state.chain_configs@, spec_chain_id(config.chain))
                    && chain_cfg(final(self).state.chain_configs@, spec_chain_id(config.chain)) == config
                    && other_chains_kept(old(self).state.chain_configs@, final(self).state.chain_configs@, spec_chain_id(config.chain)),
                Operation::DisableChain { chain } => {
                    &&& r is Ok <==> has_chain(old(self).state.chain_configs@, spec_chain_id(chain))
                    &&& r is Ok ==> !chain_cfg(final(self).state.chain_configs@, spec_chain_id(chain)).is_enabled
                        && other_chains_kept(old(self).state.chain_configs@, final(self).state.chain_configs@, spec_chain_id(chain))
                },
                Operation::AddValidator { config } => r is Ok ==> has_validator(final(self).state.validators@, config.address)
                    && validator_cfg(final(self).state.validators@, config.address) == config
                    && other_validators_kept(old(self).state.validators@, final(self).state.validators@, config.address),
                Operation::RemoveValidator { validator } => {
                    &&& r is Ok <==> has_validator(old(self).state.validators@, validator)
                    &&& r is Ok ==> !has_validator(final(self).state.validators@, validator)
                        && other_validators_kept(old(self).state.validators@, final(self).state.validators@, validator)
                },
                Operation::UpdateFees { chain, base_fee, fee_percentage_bps } => {
                    &&& r is Ok <==> has_chain(old(self).state.chain_configs@, spec_chain_id(chain))
                    &&& r is Ok ==> {
                        let c = chain_cfg(old(self).state.chain_configs@, spec_chain_id(chain));
                        let c2 = chain_cfg(final(self).state.chain_configs@, spec_chain_id(chain));
                        &&& c2.base_fee == (match base_fee { Some(f) => f, None => c.base_fee })
                        &&& c2.fee_percentage_bps == (match fee_percentage_bps { Some(b) => b, None => c.fee_percentage_bps })
                        &&& same_limits(c, c2) && c2.is_enabled == c.is_enabled
                        &&& other_chains_kept(old(self).state.chain_configs@, final(self).state.chain_configs@, spec_chain_id(chain))
                    }
                },
                Operation::EmergencyPause => r is Ok && final(self).state.is_paused,
                Operation::Resume => r is Ok && !final(self).state.is_paused,
            },
    {
        let admin = match operation {
            Operation::EmergencyPause => true,
            Operation::Resume => true,
            _ => false,
        };
        if self.state.is_paused && !admin {
            return Err(BridgeError::Paused);
        }
        match operation {
            Operation::InitiateWithdrawal { destination_chain, destination_address, asset, amount } => {
                match self.initiate_withdrawal(caller, now, destination_chain, destination_address, asset, amount) {
                    Ok(_) => Ok(()),
                    Err(e) => Err(e),
                }
            },
            Operation::ReportDeposit { source_chain, tx_hash, source_address, recipient, asset, amount, confirmations } => {
                match self.report_deposit(now, source_chain, tx_hash, source_address, recipient, asset, amount, confirmations) {
                    Ok(_) => Ok(()),
                    Err(e) => Err(e),
                }
            },
            Operation::UpdateConfirmations { transfer_id, confirmations } => self.update_confirmations(now, transfer_id, confirmations),
            Operation::ApproveTransfer { transfer_id, signature } => self.approve_transfer(caller, now, transfer_id, signature),
            Operation::ExecuteTransfer { transfer_id } => self.execute_transfer(now, transfer_id),
            Operation::CompleteWithdrawal { transfer_id, tx_hash, success } => self.complete_withdrawal(now, transfer_id, tx_hash, success),
            Operation::ClaimRefund { transfer_id } => self.claim_refund(caller, now, transfer_id),
            Operation::ProcessExpiredTransfers => {
                match self.process_expired_transfers(now) {
                    Ok(_) => Ok(()),
                    Err(e) => Err(e),
                }
            },
            Operation::ConfigureChain { config } => {
                self.configure_chain(config);
                Ok(())
            },
            Operation::DisableChain { chain } => self.disable_chain(chain),
            Operation::AddValidator { config } => self.add_validator(config),
            Operation::RemoveValidator { validator } => self.remove_validator(validator),
            Operation::UpdateFees { chain, base_fee, fee_percentage_bps } => self.update_fees(chain, base_fee, fee_percentage_bps),
            Operation::EmergencyPause => {
                self.emergency_pause();
                Ok(())
            },
            Operation::Resume => {
                self.resume();
                Ok(())
            },
        }
    }

    /// Handles a message at time `now`. A deposit notification is reported as a
    /// deposit and an approving validator signature approves its transfer; what
    /// fails is dropped. Other messages are for the relayers and change nothing.
    pub fn execute_message(&mut self, now: Timestamp, message: Message)
        requires
            old(self).state.wf(),
            old(self).state.transfers@.len() + 1 < u64::MAX,
        ensures
            final(self).state.wf(),
            match message {
                Message::DepositNotification { chain, tx_hash, recipient, asset, amount, confirmations } =>
                    if old(self).deposit_outcome(chain, tx_hash@, asset@, amount, confirmations) is Ok {
                        final(self).deposit_recorded(old(self), old(self).state.next_transfer_id, now, chain, tx_hash@, recipient, asset@, amount, confirmations)
                    } else {
                        final(self).state.same_as(&old(self).state)
                    },
                Message::ValidatorSignature { transfer_id, validator, signature, approved } =>
                    if approved && old(self).approve_outcome(validator, transfer_id) is Ok {
                        final(self).approval_recorded(old(self), validator, transfer_id, now, signature@)
                    } else {
                        final(self).state.same_as(&old(self).state)
                    },
                _ => final(self).state.same_as(&old(self).state),
            },
    {
        match message {
            Message::DepositNotification { chain, tx_hash, recipient, asset, amount, confirmations } => {
                let _ = self.report_deposit(now, chain, tx_hash, String::new(), recipient, asset, amount, confirmations);
            },
            Message::ValidatorSignature { transfer_id, validator, signature, approved } => {
                if approved {
                    let _ = self.approve_transfer(validator, now, transfer_id, signature);
                }
            },
            Message::WithdrawalRequest { .. } => {},
            Message::TransferUpdate { .. } => {},
        }
    }
}

/// How many of the first `n` transfers differ between `a` and `c`.
pub open spec fn changed_count(a: Seq<BridgeTransfer>, c: Seq<BridgeTransfer>, n: int) -> int
    decreases n,
{
    if n <= 0 {
        0
    } else {
        changed_count(a, c, n - 1) + if a[n - 1] != c[n - 1] {
            1int
        } else {
            0
        }
    }
}

proof fn lemma_nothing_changed(a: Seq<BridgeTransfer>, n: int)
    ensures
        changed_count(a, a, n) == 0,
    decreases n,
{
    if n > 0 {
        lemma_nothing_changed(a, n - 1);
    }
}

proof fn lemma_one_more_changed(a: Seq<BridgeTransfer>, c: Seq<BridgeTransfer>, idx: int, x: BridgeTransfer, n: int)
    requires
        0 <= idx < c.len(),
        c.len() == a.len(),
        n <= a.len(),
        c[idx] == a[idx],
        x != a[idx],
    ensures
        changed_count(a, c.update(idx, x), n) == changed_count(a, c, n) + if idx < n { 1int } else { 0 },
    decreases n,
{
    if n > 0 {
        lemma_one_more_changed(a, c, idx, x, n - 1);
        assert(c.update(idx, x)[n - 1] == if n - 1 == idx { x } else { c[n - 1] });
    }
}

/// Every transfer's net amount and fee add up to its amount, or the fee
/// exceeded the amount and nothing was left.
pub proof fn lemma_fee_split(st: &BridgeState, id: TransferId)
    requires
        st.wf(),
        st.has(id as int),
    ensures
        st.get(id as int).net_amount + st.get(id as int).fee == st.get(id as int).amount || (
        st.get(id as int).fee > st.get(id as int).amount && st.get(id as int).net_amount == 0),
{
    assert(fee_split_ok(st.transfers@[id - 1]));
}

/// No two completed inbound transfers share a source transaction.
pub proof fn lemma_completed_deposits_distinct(st: &BridgeState, i: TransferId, j: TransferId)
    requires
        st.wf(),
        st.has(i as int),
        st.has(j as int),
        i != j,
        st.get(i as int).direction == TransferDirection::Inbound,
        st.get(j as int).direction == TransferDirection::Inbound,
        st.get(i as int).status == TransferStatus::Completed,
        st.get(j as int).status == TransferStatus::Completed,
        st.get(i as int).source_tx_hash is Some,
    ensures
        st.get(i as int).source_tx_hash != st.get(j as int).source_tx_hash,
{
    let s = st.transfers@;
    if i < j {
        assert(inbound_hash(s[i - 1]) != inbound_hash(s[j - 1]));
    } else {
        assert(inbound_hash(s[j - 1]) is Some || s[j - 1].source_tx_hash is None);
        if s[j - 1].source_tx_hash is Some {
            assert(inbound_hash(s[j - 1]) != inbound_hash(s[i - 1]));
        }
    }
}

/// A deposit whose source transaction was seen before fails with
/// `DuplicateDeposit` (and, by the contract of `report_deposit`, changes nothing).
pub proof fn lemma_duplicate_deposit_rejected(
    b: &BridgeContract,
    source_chain: ExternalChain,
    tx_hash: Seq<char>,
    asset: Seq<char>,
    amount: Amount,
    confirmations: u64,
)
    requires
        b.state.wf(),
        !b.state.is_paused,
        b.state.seen_hash(tx_hash),
    ensures
        b.deposit_outcome(source_chain, tx_hash, asset, amount, confirmations) == Err::<TransferId, BridgeError>(BridgeError::DuplicateDeposit),
{
}

} // verus!
