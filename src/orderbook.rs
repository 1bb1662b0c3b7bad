//! The central limit order book of one market: orders are matched by price,
//! then time, at the resting order's price; funds are locked up front in the
//! ledger and move on each fill.
use crate::ledger::{delta, BalanceLedger, Holder, LedgerError};
use crate::sums::{
    all_nonneg, lemma_elem_le_sum, lemma_sum_nonneg, lemma_sum_push, lemma_sum_remove,
    lemma_sum_update, sum,
};
use crate::types::{Account, Amount, OrderId, Price, Quantity, Timestamp, TradeId};
use vstd::prelude::*;

verus! {

/// Prices and quantities are fixed point with this scale.
pub const PRICE_SCALE: u64 = 100_000_000;

/// Basis points in one whole.
pub const BPS_SCALE: u64 = 10_000;

#[derive(Clone, Copy, Debug, PartialEq, Eq, Structural)]
pub enum OrderSide {
    Buy,
    Sell,
}

#[derive(Clone, Copy, Debug, PartialEq, Eq, Structural)]
pub enum OrderType {
    Limit,
    Market,
    StopLoss { trigger_price: Price },
    TakeProfit { trigger_price: Price },
}

#[derive(Clone, Copy, Debug, PartialEq, Eq, Structural)]
pub enum TimeInForce {
    /// Good till cancelled: the remainder rests in the book.
    GTC,
    /// Immediate or cancel: the remainder is cancelled.
    IOC,
    /// Fill or kill: the whole order fills at once, or nothing happens.
    FOK,
    /// Post only: rejected if it would take liquidity.
    PostOnly,
}

#[derive(Clone, Copy, Debug, PartialEq, Eq, Structural)]
pub enum OrderStatus {
    Pending,
    Open,
    PartiallyFilled,
    Filled,
    Cancelled,
    Expired,
    Rejected,
}

#[derive(Clone, Copy, Debug, PartialEq, Eq, Structural)]
pub struct Order {
    pub id: OrderId,
    pub user: Account,
    pub side: OrderSide,
    pub order_type: OrderType,
    pub price: Price,
    pub quantity: Quantity,
    pub filled_quantity: Quantity,
    pub status: OrderStatus,
    pub time_in_force: TimeInForce,
    pub timestamp: Timestamp,
    pub expires_at: Option<Timestamp>,
    /// What the order still holds locked in the ledger: quote for a buy, base
    /// for a sell.
    pub reserved: Amount,
}

pub open spec fn remaining(o: Order) -> int {
    o.quantity - o.filled_quantity
}

pub open spec fn is_live(o: Order) -> bool {
    o.status == OrderStatus::Open || o.status == OrderStatus::PartiallyFilled || o.status
        == OrderStatus::Pending
}

/// The quote value of `qty` at `price`.
pub open spec fn quote_cost(price: int, qty: int) -> int {
    (price * qty) / (PRICE_SCALE as int)
}

/// What an order must keep locked for its remaining quantity.
pub open spec fn remaining_lock(o: Order) -> int {
    if o.side == OrderSide::Buy {
        quote_cost(o.price as int, remaining(o))
    } else {
        remaining(o)
    }
}

impl Order {
    pub fn remaining_quantity(&self) -> (r: Quantity)
        ensures
            r == if self.filled_quantity <= self.quantity {
                self.quantity - self.filled_quantity
            } else {
                0
            },
    {
        self.quantity.saturating_sub(self.filled_quantity)
    }

    pub fn is_fully_filled(&self) -> (r: bool)
        ensures
            r == (self.filled_quantity >= self.quantity),
    {
        self.filled_quantity >= self.quantity
    }

    pub fn is_active(&self) -> (r: bool)
        ensures
            r == is_live(*self),
    {
        self.status == OrderStatus::Open || self.status == OrderStatus::PartiallyFilled
            || self.status == OrderStatus::Pending
    }

    /// Whether this order and `other` are on opposite sides at prices that cross.
    pub fn can_match(&self, other: &Order) -> (r: bool)
        ensures
            r == ((self.side == OrderSide::Buy && other.side == OrderSide::Sell && self.price
                >= other.price) || (self.side == OrderSide::Sell && other.side == OrderSide::Buy
                && self.price <= other.price)),
    {
        match (self.side, other.side) {
            (OrderSide::Buy, OrderSide::Sell) => self.price >= other.price,
            (OrderSide::Sell, OrderSide::Buy) => self.price <= other.price,
            _ => false,
        }
    }
}

/// The orders resting at one price, oldest first, and the sum of their
/// remaining quantities.
#[derive(Debug)]
pub struct PriceLevel {
    pub price: Price,
    pub total_quantity: u128,
    pub orders: Vec<OrderId>,
}

#[derive(Clone, Copy, Debug, PartialEq, Eq, Structural)]
pub struct Trade {
    pub id: TradeId,
    pub maker_order_id: OrderId,
    pub taker_order_id: OrderId,
    pub price: Price,
    pub quantity: Quantity,
    pub timestamp: Timestamp,
    pub maker: Account,
    pub taker: Account,
    pub maker_side: OrderSide,
}

#[derive(Clone, Copy, Debug, PartialEq, Eq, Structural, Default)]
pub struct MarketStats {
    pub last_price: Price,
    pub best_bid: Price,
    pub best_ask: Price,
    pub volume_24h: Quantity,
    pub high_24h: Price,
    pub low_24h: Price,
    pub price_change_24h: i64,
    pub total_trades: u64,
}

#[derive(Debug)]
pub struct MarketConfig {
    pub base_asset: String,
    pub quote_asset: String,
    pub min_order_size: Quantity,
    pub max_order_size: Quantity,
    pub tick_size: Price,
    pub maker_fee_bps: u64,
    pub taker_fee_bps: u64,
    pub is_active: bool,
}

impl Default for MarketConfig {
    fn default() -> (r: MarketConfig)
        ensures
            r.base_asset@ == "BTC"@,
            r.quote_asset@ == "USDT"@,
            r.min_order_size == 1000,
            r.max_order_size == 100_000_000_000,
            r.tick_size == 1,
            r.maker_fee_bps == 10,
            r.taker_fee_bps == 20,
            r.is_active,
    {
        MarketConfig {
            base_asset: "BTC".to_string(),
            quote_asset: "USDT".to_string(),
            min_order_size: 1000,
            max_order_size: 100_000_000_000,
            tick_size: 1,
            maker_fee_bps: 10,
            taker_fee_bps: 20,
            is_active: true,
        }
    }
}

/// Why an order is invalid.
#[derive(Clone, Copy, Debug, PartialEq, Eq, Structural)]
pub enum InvalidOrderReason {
    /// A limit price of zero.
    ZeroPrice,
    /// A post-only order that would match at once.
    WouldTakeLiquidity,
    /// A market order with nothing on the opposite side.
    NoLiquidity,
    /// A fill-or-kill order that the book cannot fill in full.
    CannotFillInFull,
}

#[derive(Clone, Copy, Debug, PartialEq, Eq, Structural)]
pub enum OrderBookError {
    OrderNotFound { order_id: OrderId },
    InsufficientBalance { required: Amount, available: Amount },
    InvalidOrder { reason: InvalidOrderReason },
    OrderNotModifiable { status: OrderStatus },
    Unauthorized,
    MarketClosed,
    BelowMinimumSize { size: Quantity, minimum: Quantity },
    AboveMaximumSize { size: Quantity, maximum: Quantity },
    InvalidTickSize,
    /// A balance would no longer fit in an `Amount`.
    Overflow,
}

/// Everything the order book keeps.
pub struct OrderBookState {
    pub config: MarketConfig,
    /// The id the next order gets.
    pub next_order_id: OrderId,
    /// All orders, live or not; the one with id `k` stands at index `k - 1`.
    pub orders: Vec<Order>,
    /// Buy levels, best (highest) price first.
    pub bids: Vec<PriceLevel>,
    /// Sell levels, best (lowest) price first.
    pub asks: Vec<PriceLevel>,
    pub best_bid: Option<Price>,
    pub best_ask: Option<Price>,
    pub ledger: BalanceLedger,
    pub trades: Vec<Trade>,
    pub market_stats: MarketStats,
    pub next_trade_id: TradeId,
    /// Stop orders waiting for their trigger.
    pub stop_orders: Vec<OrderId>,
}

/// The order book of one market.
pub struct OrderBookContract {
    pub state: OrderBookState,
}

/// The asset that order `o` locks: quote for a buy, base for a sell.
pub open spec fn lock_asset(o: Order, base: Seq<char>, quote: Seq<char>) -> Seq<char> {
    if o.side == OrderSide::Buy {
        quote
    } else {
        base
    }
}

pub open spec fn lock_term(o: Order, u: Account, a: Seq<char>, base: Seq<char>, quote: Seq<char>) -> int {
    if o.user == u && lock_asset(o, base, quote) == a {
        o.reserved as int
    } else {
        0
    }
}

pub open spec fn lock_terms(orders: Seq<Order>, u: Account, a: Seq<char>, base: Seq<char>, quote: Seq<char>) -> Seq<int> {
    orders.map_values(|o: Order| lock_term(o, u, a, base, quote))
}

pub open spec fn level_terms(orders: Seq<Order>, ids: Seq<OrderId>) -> Seq<int> {
    ids.map_values(|id: OrderId| remaining(orders[id - 1]))
}

/// An order's own bookkeeping is consistent: what it filled is at most its
/// quantity, a live order is not yet filled and keeps locked at least what its
/// remainder needs, and a finished one keeps nothing locked.
pub open spec fn order_ok(o: Order) -> bool {
    &&& o.filled_quantity <= o.quantity
    &&& is_live(o) ==> o.filled_quantity < o.quantity && o.reserved >= remaining_lock(o)
    &&& !is_live(o) ==> o.reserved == 0
    &&& o.status == OrderStatus::Filled <==> o.filled_quantity == o.quantity
}

/// `p` is strictly better than `q` for resting orders of `side`.
pub open spec fn better(side: OrderSide, p: Price, q: Price) -> bool {
    if side == OrderSide::Buy {
        p > q
    } else {
        p < q
    }
}

/// The levels of `side` are sorted best first, none is empty, each holds
/// distinct live orders of that side at its price, and each total is the sum
/// of their remaining quantities.
pub open spec fn levels_ok(levels: Seq<PriceLevel>, side: OrderSide, orders: Seq<Order>) -> bool {
    &&& forall|l: int, m: int|
        0 <= l < m < levels.len() ==> better(side, #[trigger] levels[l].price, #[trigger] levels[m].price)
    &&& forall|l: int| 0 <= l < levels.len() ==> (#[trigger] levels[l]).orders@.len() > 0
    &&& forall|l: int|
        0 <= l < levels.len() ==> (#[trigger] levels[l]).total_quantity == sum(
            level_terms(orders, levels[l].orders@),
        )
    &&& forall|l: int, i: int|
        0 <= l < levels.len() && 0 <= i < levels[l].orders@.len() ==> {
            let id = #[trigger] levels[l].orders@[i];
            &&& 1 <= id <= orders.len()
            &&& orders[id - 1].side == side
            &&& orders[id - 1].price == levels[l].price
            &&& is_live(orders[id - 1])
        }
    &&& forall|l: int, i: int, j: int|
        0 <= l < levels.len() && 0 <= i < j < levels[l].orders@.len() ==> #[trigger] levels[l].orders@[i]
            != #[trigger] levels[l].orders@[j]
}

pub open spec fn best_of(levels: Seq<PriceLevel>) -> Option<Price> {
    if levels.len() == 0 {
        None
    } else {
        Some(levels[0].price)
    }
}

impl OrderBookState {
    pub open spec fn has(&self, id: int) -> bool {
        1 <= id <= self.orders@.len()
    }

    pub open spec fn get(&self, id: int) -> Order {
        self.orders@[id - 1]
    }

    pub open spec fn base(&self) -> Seq<char> {
        self.config.base_asset@
    }

    pub open spec fn quote(&self) -> Seq<char> {
        self.config.quote_asset@
    }

    /// What all orders of `u` together keep locked in asset `a`.
    pub open spec fn reserved_total(&self, u: Account, a: Seq<char>) -> int {
        sum(lock_terms(self.orders@, u, a, self.base(), self.quote()))
    }

    pub open spec fn locks_ok(&self) -> bool {
        forall|u: Account, a: Seq<char>| #[trigger]
            self.ledger.balance(Holder::Locked(u), a) == self.reserved_total(u, a)
    }

    pub open spec fn orders_ok(&self) -> bool {
        &&& self.next_order_id == self.orders@.len() + 1
        &&& forall|i: int| 0 <= i < self.orders@.len() ==> #[trigger] self.orders@[i].id == i + 1
        &&& forall|i: int| 0 <= i < self.orders@.len() ==> order_ok(#[trigger] self.orders@[i])
    }

    pub open spec fn book_ok(&self) -> bool {
        &&& levels_ok(self.bids@, OrderSide::Buy, self.orders@)
        &&& levels_ok(self.asks@, OrderSide::Sell, self.orders@)
        &&& self.best_bid == best_of(self.bids@)
        &&& self.best_ask == best_of(self.asks@)
    }

    /// Nothing of the book differs from `prev`.
    pub open spec fn unchanged_from(&self, prev: &Self) -> bool {
        &&& self.orders@ == prev.orders@
        &&& self.bids@ == prev.bids@
        &&& self.asks@ == prev.asks@
        &&& self.best_bid == prev.best_bid
        &&& self.best_ask == prev.best_ask
        &&& self.ledger == prev.ledger
        &&& self.trades@ == prev.trades@
        &&& self.market_stats == prev.market_stats
        &&& self.next_order_id == prev.next_order_id
        &&& self.next_trade_id == prev.next_trade_id
        &&& self.stop_orders@ == prev.stop_orders@
        &&& self.config == prev.config
    }

    pub open spec fn config_ok(&self) -> bool {
        &&& self.config.tick_size > 0
        &&& self.config.maker_fee_bps <= BPS_SCALE
        &&& self.config.taker_fee_bps <= BPS_SCALE
        &&& self.config.base_asset@ != self.config.quote_asset@
    }

    pub open spec fn wf(&self) -> bool {
        &&& self.ledger.wf()
        &&& self.config_ok()
        &&& self.orders_ok()
        &&& self.locks_ok()
        &&& self.book_ok()
    }
}

impl OrderBookContract {
    /// An empty book for a market with configuration `config`.
    pub fn new(config: MarketConfig) -> (r: OrderBookContract)
        requires
            config.tick_size > 0,
            config.maker_fee_bps <= BPS_SCALE,
            config.taker_fee_bps <= BPS_SCALE,
            config.base_asset@ != config.quote_asset@,
        ensures
            r.state.wf(),
            r.state.config == config,
            r.state.orders@.len() == 0,
            r.state.bids@.len() == 0,
            r.state.asks@.len() == 0,
            r.state.trades@.len() == 0,
            forall|h: Holder, a: Seq<char>| #[trigger] r.state.ledger.balance(h, a) == 0,
    {
        let r = OrderBookContract {
            state: OrderBookState {
                config,
                next_order_id: 1,
                orders: Vec::new(),
                bids: Vec::new(),
                asks: Vec::new(),
                best_bid: None,
                best_ask: None,
                ledger: BalanceLedger::new(),
                trades: Vec::new(),
                market_stats: MarketStats {
                    last_price: 0,
                    best_bid: 0,
                    best_ask: 0,
                    volume_24h: 0,
                    high_24h: 0,
                    low_24h: 0,
                    price_change_24h: 0,
                    total_trades: 0,
                },
                next_trade_id: 1,
                stop_orders: Vec::new(),
            },
        };
        proof {
            assert forall|u: Account, a: Seq<char>| #[trigger] r.state.ledger.balance(Holder::Locked(u), a)
                == r.state.reserved_total(u, a) by {
                assert(lock_terms(r.state.orders@, u, a, r.state.base(), r.state.quote()) =~= Seq::<int>::empty());
            }
        }
        r
    }

    /// `self` is `prev` with `amount` of `asset` added to the free balance of `caller`.
    pub open spec fn deposited(&self, prev: &Self, caller: Account, asset: Seq<char>, amount: Amount) -> bool {
        self.state.ledger.changed(&prev.state.ledger, asset, Holder::Free(caller), amount as int)
        && self.state.ledger.flows(&prev.state.ledger, asset, amount as int, 0)
        && self.state.orders@ == prev.state.orders@
    }

    /// Adds `amount` of `asset` to the caller's free balance.
    pub fn deposit(&mut self, caller: Account, asset: String, amount: Amount) -> (r: Result<(), OrderBookError>)
        requires
            old(self).state.wf(),
        ensures
            final(self).state.wf(),
            r is Err <==> old(self).state.ledger.supply(asset@) + amount > u128::MAX,
            r is Err ==> r == Err::<(), OrderBookError>(OrderBookError::Overflow)
                && final(self).state.ledger == old(self).state.ledger,
            r is Ok ==> final(self).deposited(old(self), caller, asset@, amount),
            final(self).state.orders@ == old(self).state.orders@,
    {
        let ghost old_state = self.state;
        match self.state.ledger.credit(caller, &asset, amount) {
            Ok(()) => {
                proof {
                    assert forall|u: Account, a: Seq<char>| #[trigger] self.state.ledger.balance(Holder::Locked(u), a)
                        == self.state.reserved_total(u, a) by {
                        assert(old_state.ledger.balance(Holder::Locked(u), a) == old_state.reserved_total(u, a));
                    }
                }
                Ok(())
            },
            Err(_) => Err(OrderBookError::Overflow),
        }
    }

    /// `self` is `prev` with `amount` of `asset` taken out of the free balance of `caller`.
    pub open spec fn withdrew(&self, prev: &Self, caller: Account, asset: Seq<char>, amount: Amount) -> bool {
        self.state.ledger.changed(&prev.state.ledger, asset, Holder::Free(caller), -amount)
        && self.state.ledger.flows(&prev.state.ledger, asset, 0, amount as int)
        && self.state.orders@ == prev.state.orders@
    }

    /// Takes `amount` of `asset` out of the caller's free balance.
    pub fn withdraw(&mut self, caller: Account, asset: String, amount: Amount) -> (r: Result<(), OrderBookError>)
        requires
            old(self).state.wf(),
        ensures
            final(self).state.wf(),
            r is Err <==> old(self).state.ledger.free(caller, asset@) < amount,
            r is Err ==> r == Err::<(), OrderBookError>(OrderBookError::InsufficientBalance {
                required: amount,
                available: old(self).state.ledger.free(caller, asset@) as u128,
            }) && final(self).state.ledger == old(self).state.ledger,
            r is Ok ==> final(self).withdrew(old(self), caller, asset@, amount),
            final(self).state.orders@ == old(self).state.orders@,
    {
        let ghost old_state = self.state;
        match self.state.ledger.debit(caller, &asset, amount) {
            Ok(()) => {
                proof {
                    assert forall|u: Account, a: Seq<char>| #[trigger] self.state.ledger.balance(Holder::Locked(u), a)
                        == self.state.reserved_total(u, a) by {
                        assert(old_state.ledger.balance(Holder::Locked(u), a) == old_state.reserved_total(u, a));
                    }
                }
                Ok(())
            },
            Err(LedgerError::InsufficientBalance { required, available }) => Err(OrderBookError::InsufficientBalance { required, available }),
            Err(LedgerError::Overflow) => Err(OrderBookError::Overflow),
        }
    }

    /// `self` is `prev` with the size limits and tick size set; `None` keeps a value.
    pub open spec fn config_updated(&self, prev: &Self, min_order_size: Option<Quantity>, max_order_size: Option<Quantity>, tick_size: Option<Price>) -> bool {
        &&& self.state.config.min_order_size == (match min_order_size { Some(v) => v, None => prev.state.config.min_order_size })
        &&& self.state.config.max_order_size == (match max_order_size { Some(v) => v, None => prev.state.config.max_order_size })
        &&& self.state.config.tick_size == (match tick_size { Some(v) => v, None => prev.state.config.tick_size })
        &&& self.state.config.base_asset@ == prev.state.config.base_asset@
        &&& self.state.config.quote_asset@ == prev.state.config.quote_asset@
        &&& self.state.config.maker_fee_bps == prev.state.config.maker_fee_bps
        &&& self.state.config.taker_fee_bps == prev.state.config.taker_fee_bps
        &&& self.state.config.is_active == prev.state.config.is_active
        &&& self.state.orders@ == prev.state.orders@
        &&& self.state.ledger == prev.state.ledger
    }

    /// Changes the size limits and the tick size; `None` keeps a value. A tick
    /// size of zero is refused.
    pub fn update_config(&mut self, min_order_size: Option<Quantity>, max_order_size: Option<Quantity>, tick_size: Option<Price>) -> (r: Result<(), OrderBookError>)
        requires
            old(self).state.wf(),
        ensures
            final(self).state.wf(),
            r is Err <==> tick_size == Some(0u64),
            r is Err ==> r == Err::<(), OrderBookError>(OrderBookError::InvalidTickSize),
            r is Ok ==> final(self).config_updated(old(self), min_order_size, max_order_size, tick_size),
            r is Err ==> final(self).state.unchanged_from(&old(self).state),
    {
        if tick_size == Some(0u64) {
            return Err(OrderBookError::InvalidTickSize);
        }
        if let Some(v) = min_order_size {
            self.state.config.min_order_size = v;
        }
        if let Some(v) = max_order_size {
            self.state.config.max_order_size = v;
        }
        if let Some(v) = tick_size {
            self.state.config.tick_size = v;
        }
        Ok(())
    }
}

/// Order `id` rests in none of `levels`.
pub open spec fn absent(levels: Seq<PriceLevel>, id: int) -> bool {
    forall|l: int, i: int|
        0 <= l < levels.len() && 0 <= i < levels[l].orders@.len() ==> #[trigger] levels[l].orders@[i] != id
}

/// Orders `orders2` agree with `orders` on every order resting in `levels`.
pub open spec fn agree_on_levels(levels: Seq<PriceLevel>, orders: Seq<Order>, orders2: Seq<Order>) -> bool {
    &&& orders.len() <= orders2.len()
    &&& forall|l: int, i: int|
        0 <= l < levels.len() && 0 <= i < levels[l].orders@.len() ==> {
            let id = #[trigger] levels[l].orders@[i];
            1 <= id <= orders.len() ==> orders2[id - 1] == orders[id - 1]
        }
}

proof fn lemma_levels_agree(levels: Seq<PriceLevel>, side: OrderSide, orders: Seq<Order>, orders2: Seq<Order>)
    requires
        levels_ok(levels, side, orders),
        agree_on_levels(levels, orders, orders2),
    ensures
        levels_ok(levels, side, orders2),
{
    assert forall|l: int| 0 <= l < levels.len() implies (#[trigger] levels[l]).total_quantity == sum(
        level_terms(orders2, levels[l].orders@)) by {
        let ids = levels[l].orders@;
        assert forall|i: int| 0 <= i < ids.len() implies orders2[ids[i] - 1] == orders[ids[i] - 1] by {
            assert(1 <= levels[l].orders@[i] <= orders.len());
        }
        assert(level_terms(orders2, ids) =~= level_terms(orders, ids));
    }
    assert forall|l: int, i: int|
        0 <= l < levels.len() && 0 <= i < levels[l].orders@.len() implies {
            let id = #[trigger] levels[l].orders@[i];
            &&& 1 <= id <= orders2.len()
            &&& orders2[id - 1].side == side
            &&& orders2[id - 1].price == levels[l].price
            &&& is_live(orders2[id - 1])
        } by {
        let id = levels[l].orders@[i];
        assert(1 <= id <= orders.len());
    }
}

proof fn lemma_absent_other_side(levels: Seq<PriceLevel>, side: OrderSide, orders: Seq<Order>, k: int)
    requires
        levels_ok(levels, side, orders),
        0 <= k < orders.len(),
        orders[k].side != side || !is_live(orders[k]),
    ensures
        absent(levels, k + 1),
{
    assert forall|l: int, i: int|
        0 <= l < levels.len() && 0 <= i < levels[l].orders@.len() implies #[trigger] levels[l].orders@[i] != k + 1 by {
        let id = levels[l].orders@[i];
        assert(1 <= id <= orders.len());
    }
}

/// Changing an order that rests nowhere in `levels` keeps them well formed.
proof fn lemma_levels_untouched(levels: Seq<PriceLevel>, side: OrderSide, orders: Seq<Order>, k: int, o2: Order)
    requires
        levels_ok(levels, side, orders),
        0 <= k < orders.len(),
        absent(levels, k + 1),
    ensures
        levels_ok(levels, side, orders.update(k, o2)),
{
    let orders2 = orders.update(k, o2);
    assert forall|l: int, i: int|
        0 <= l < levels.len() && 0 <= i < levels[l].orders@.len() implies {
            let id = #[trigger] levels[l].orders@[i];
            1 <= id <= orders.len() ==> orders2[id - 1] == orders[id - 1]
        } by {
        let id = levels[l].orders@[i];
        assert(id != k + 1);
    }
    lemma_levels_agree(levels, side, orders, orders2);
}

/// A new order at the end keeps the levels well formed.
proof fn lemma_levels_push(levels: Seq<PriceLevel>, side: OrderSide, orders: Seq<Order>, o: Order)
    requires
        levels_ok(levels, side, orders),
    ensures
        levels_ok(levels, side, orders.push(o)),
{
    let orders2 = orders.push(o);
    assert forall|l: int, i: int|
        0 <= l < levels.len() && 0 <= i < levels[l].orders@.len() implies {
            let id = #[trigger] levels[l].orders@[i];
            1 <= id <= orders.len() ==> orders2[id - 1] == orders[id - 1]
        } by {}
    lemma_levels_agree(levels, side, orders, orders2);
}

/// Changing what an order keeps locked, and nothing that the levels read,
/// keeps them well formed.
proof fn lemma_levels_same_rest(levels: Seq<PriceLevel>, side: OrderSide, orders: Seq<Order>, k: int, o2: Order)
    requires
        levels_ok(levels, side, orders),
        0 <= k < orders.len(),
        o2.side == orders[k].side,
        o2.price == orders[k].price,
        is_live(o2) == is_live(orders[k]),
        remaining(o2) == remaining(orders[k]),
    ensures
        levels_ok(levels, side, orders.update(k, o2)),
{
    let orders2 = orders.update(k, o2);
    assert forall|l: int| 0 <= l < levels.len() implies (#[trigger] levels[l]).total_quantity == sum(
        level_terms(orders2, levels[l].orders@)) by {
        let ids = levels[l].orders@;
        assert forall|i: int| 0 <= i < ids.len() implies remaining(orders2[ids[i] - 1]) == remaining(orders[ids[i] - 1]) by {
            assert(1 <= levels[l].orders@[i] <= orders.len());
        }
        assert(level_terms(orders2, ids) =~= level_terms(orders, ids));
    }
    assert forall|l: int, i: int|
        0 <= l < levels.len() && 0 <= i < levels[l].orders@.len() implies {
            let id = #[trigger] levels[l].orders@[i];
            &&& 1 <= id <= orders2.len()
            &&& orders2[id - 1].side == side
            &&& orders2[id - 1].price == levels[l].price
            &&& is_live(orders2[id - 1])
        } by {
        let id = levels[l].orders@[i];
        assert(1 <= id <= orders.len());
    }
}

/// The index at which the order with id `id` stands.
fn slot(id: OrderId, len: usize) -> (r: usize)
    requires
        1 <= id <= len,
    ensures
        r == id - 1,
{
    (id - 1) as usize
}

fn is_better(side: OrderSide, p: Price, q: Price) -> (r: bool)
    ensures
        r == better(side, p, q),
{
    match side {
        OrderSide::Buy => p > q,
        OrderSide::Sell => p < q,
    }
}

/// Order `id` rests somewhere in `levels`.
pub open spec fn rests_in(levels: Seq<PriceLevel>, id: int) -> bool {
    !absent(levels, id)
}

/// Every order but `id` rests in `levels2` exactly when it rests in `levels`.
pub open spec fn others_rest_alike(levels: Seq<PriceLevel>, levels2: Seq<PriceLevel>, id: int) -> bool {
    forall|j: int| j != id ==> #[trigger] absent(levels2, j) == absent(levels, j)
}

proof fn lemma_level_total_bound(orders: Seq<Order>, ids: Seq<OrderId>)
    requires
        forall|i: int| 0 <= i < ids.len() ==> 1 <= #[trigger] ids[i] <= orders.len() && orders[ids[i] - 1].filled_quantity
            <= orders[ids[i] - 1].quantity,
    ensures
        0 <= sum(level_terms(orders, ids)) <= ids.len() * (u64::MAX as int),
{
    let t = level_terms(orders, ids);
    assert forall|i: int| 0 <= i < t.len() implies 0 <= #[trigger] t[i] <= u64::MAX as int by {
        assert(1 <= ids[i] <= orders.len());
    }
    crate::sums::lemma_sum_bounded(t, u64::MAX as int);
    assert(all_nonneg(t));
    lemma_sum_nonneg(t);
}

/// Puts live order `id` of `side` at the back of the level at its price,
/// opening that level if there is none.
fn insert_resting(levels: &mut Vec<PriceLevel>, side: OrderSide, orders: &Vec<Order>, id: OrderId)
    requires
        levels_ok(old(levels)@, side, orders@),
        1 <= id <= orders@.len(),
        orders@[id - 1].side == side,
        is_live(orders@[id - 1]),
        orders@[id - 1].filled_quantity <= orders@[id - 1].quantity,
        absent(old(levels)@, id as int),
        forall|i: int| 0 <= i < orders@.len() ==> (#[trigger] orders@[i]).filled_quantity <= orders@[i].quantity,
    ensures
        levels_ok(final(levels)@, side, orders@),
        rests_in(final(levels)@, id as int),
        others_rest_alike(old(levels)@, final(levels)@, id as int),
        final(levels)@.len() > 0,
        old(levels)@.len() == 0 || better(side, final(levels)@[0].price, old(levels)@[0].price)
            || final(levels)@[0].price == old(levels)@[0].price,
        final(levels)@[0].price == orders@[id - 1].price || (old(levels)@.len() > 0 && final(levels)@[0].price == old(levels)@[0].price),
{
    let ghost ls = levels@;
    let k = slot(id, orders.len());
    let price = orders[k].price;
    let rem = (orders[k].quantity - orders[k].filled_quantity) as u128;
    let mut i: usize = 0;
    while i < levels.len() && is_better(side, levels[i].price, price)
        invariant
            levels@ == ls,
            i <= levels@.len(),
            forall|l: int| 0 <= l < i ==> better(side, #[trigger] levels@[l].price, price),
        decreases levels@.len() - i,
    {
        i = i + 1;
    }
    if i < levels.len() && levels[i].price == price {
        let mut lvl = levels.remove(i);
        let n = lvl.orders.len();
        let ghost ids = lvl.orders@;
        proof {
            assert(ls[i as int] == lvl);
            assert(levels_ok(ls, side, orders@));
            assert forall|k: int| 0 <= k < ids.len() implies 1 <= #[trigger] ids[k] <= orders@.len() && orders@[ids[k] - 1].filled_quantity
                <= orders@[ids[k] - 1].quantity by {
                assert(ls[i as int].orders@[k] == ids[k]);
            }
            lemma_level_total_bound(orders@, ids);
            assert(n * (u64::MAX as int) + u64::MAX <= u128::MAX) by (nonlinear_arith)
                requires n <= u64::MAX;
        }
        lvl.orders.push(id);
        lvl.total_quantity = lvl.total_quantity + rem;
        levels.insert(i, lvl);
        proof {
            let ls2 = levels@;
            let l2 = ls2[i as int];
            assert(ls2 =~= ls.update(i as int, l2));
            assert(l2.orders@ =~= ids.push(id));
            assert(level_terms(orders@, ids.push(id)) =~= level_terms(orders@, ids).push(rem as int));
            lemma_sum_push(level_terms(orders@, ids), rem as int);
            assert forall|l: int, m: int| 0 <= l < m < ls2.len() implies better(side, #[trigger] ls2[l].price, #[trigger] ls2[m].price) by {
                assert(better(side, ls[l].price, ls[m].price));
            }
            assert forall|l: int| 0 <= l < ls2.len() implies (#[trigger] ls2[l]).total_quantity == sum(level_terms(orders@, ls2[l].orders@)) by {
                if l != i {
                    assert(ls2[l] == ls[l]);
                }
            }
            assert forall|l: int, k: int| 0 <= l < ls2.len() && 0 <= k < ls2[l].orders@.len() implies {
                let x = #[trigger] ls2[l].orders@[k];
                &&& 1 <= x <= orders@.len()
                &&& orders@[x - 1].side == side
                &&& orders@[x - 1].price == ls2[l].price
                &&& is_live(orders@[x - 1])
            } by {
                if l != i {
                    assert(ls2[l] == ls[l]);
                    assert(ls[l].orders@[k] == ls2[l].orders@[k]);
                } else if k < ids.len() {
                    assert(ls[l].orders@[k] == ls2[l].orders@[k]);
                }
            }
            assert forall|l: int, a: int, b: int| 0 <= l < ls2.len() && 0 <= a < b < ls2[l].orders@.len()
                implies #[trigger] ls2[l].orders@[a] != #[trigger] ls2[l].orders@[b] by {
                if l != i {
                    assert(ls2[l] == ls[l]);
                    assert(ls[l].orders@[a] != ls[l].orders@[b]);
                } else if b < ids.len() {
                    assert(ls[l].orders@[a] != ls[l].orders@[b]);
                } else {
                    assert(ls[l].orders@[a] == ls2[l].orders@[a]);
                }
            }
            assert(ls2[i as int].orders@[ids.len() as int] == id);
            assert forall|j: int| j != id implies #[trigger] absent(ls2, j) == absent(ls, j) by {
                if !absent(ls, j) {
                    let (l, k) = choose|l: int, k: int| 0 <= l < ls.len() && 0 <= k < ls[l].orders@.len() && ls[l].orders@[k] == j;
                    if l == i {
                        assert(ls2[l].orders@[k] == j);
                    } else {
                        assert(ls2[l] == ls[l]);
                        assert(ls2[l].orders@[k] == j);
                    }
                }
                if !absent(ls2, j) {
                    let (l, k) = choose|l: int, k: int| 0 <= l < ls2.len() && 0 <= k < ls2[l].orders@.len() && ls2[l].orders@[k] == j;
                    if l == i {
                        assert(k < ids.len());
                        assert(ls[l].orders@[k] == j);
                    } else {
                        assert(ls2[l] == ls[l]);
                        assert(ls[l].orders@[k] == j);
                    }
                }
            }
            if i > 0 {
                assert(ls2[0] == ls[0]);
            }
        }
    } else {
        let mut ids: Vec<OrderId> = Vec::new();
        ids.push(id);
        let lvl = PriceLevel { price, total_quantity: rem, orders: ids };
        levels.insert(i, lvl);
        proof {
            let ls2 = levels@;
            assert(ls2 =~= ls.insert(i as int, lvl));
            assert(lvl.orders@ =~= seq![id]);
            assert(level_terms(orders@, lvl.orders@) =~= seq![rem as int]);
            assert(sum(seq![rem as int]) == rem as int) by {
                assert(seq![rem as int] =~= Seq::<int>::empty().push(rem as int));
                lemma_sum_push(Seq::<int>::empty(), rem as int);
                assert(sum(Seq::<int>::empty()) == 0);
            }
            assert forall|l: int, m: int| 0 <= l < m < ls2.len() implies better(side, #[trigger] ls2[l].price, #[trigger] ls2[m].price) by {
                let l0 = if l < i { l } else { l - 1 };
                let m0 = if m < i { m } else { m - 1 };
                if l < i && m > i {
                    assert(better(side, ls[l].price, price));
                    assert(!better(side, ls[m0].price, price) && ls[m0].price != price) by {
                        if m0 > i {
                            assert(better(side, ls[i as int].price, ls[m0].price));
                        }
                    }
                } else if l < i && m < i {
                    assert(better(side, ls[l].price, ls[m].price));
                } else if l == i {
                    assert(!better(side, ls[m0].price, price) && ls[m0].price != price) by {
                        if m0 > i {
                            assert(better(side, ls[i as int].price, ls[m0].price));
                        }
                    }
                } else if m == i {
                    assert(better(side, ls[l].price, price));
                } else {
                    assert(better(side, ls[l0].price, ls[m0].price));
                }
            }
            assert forall|l: int| 0 <= l < ls2.len() implies (#[trigger] ls2[l]).total_quantity == sum(level_terms(orders@, ls2[l].orders@)) by {
                if l < i {
                    assert(ls2[l] == ls[l]);
                } else if l > i {
                    assert(ls2[l] == ls[l - 1]);
                }
            }
            assert forall|l: int| 0 <= l < ls2.len() implies (#[trigger] ls2[l]).orders@.len() > 0 by {
                if l < i {
                    assert(ls2[l] == ls[l]);
                } else if l > i {
                    assert(ls2[l] == ls[l - 1]);
                }
            }
            assert forall|l: int, k: int| 0 <= l < ls2.len() && 0 <= k < ls2[l].orders@.len() implies {
                let x = #[trigger] ls2[l].orders@[k];
                &&& 1 <= x <= orders@.len()
                &&& orders@[x - 1].side == side
                &&& orders@[x - 1].price == ls2[l].price
                &&& is_live(orders@[x - 1])
            } by {
                if l < i {
                    assert(ls2[l] == ls[l]);
                    assert(ls[l].orders@[k] == ls2[l].orders@[k]);
                } else if l > i {
                    assert(ls2[l] == ls[l - 1]);
                    assert(ls[l - 1].orders@[k] == ls2[l].orders@[k]);
                }
            }
            assert forall|l: int, a: int, b: int| 0 <= l < ls2.len() && 0 <= a < b < ls2[l].orders@.len()
                implies #[trigger] ls2[l].orders@[a] != #[trigger] ls2[l].orders@[b] by {
                if l < i {
                    assert(ls2[l] == ls[l]);
                    assert(ls[l].orders@[a] != ls[l].orders@[b]);
                } else if l > i {
                    assert(ls2[l] == ls[l - 1]);
                    assert(ls[l - 1].orders@[a] != ls[l - 1].orders@[b]);
                }
            }
            assert(ls2[i as int].orders@[0] == id);
            assert forall|j: int| j != id implies #[trigger] absent(ls2, j) == absent(ls, j) by {
                if !absent(ls, j) {
                    let (l, k) = choose|l: int, k: int| 0 <= l < ls.len() && 0 <= k < ls[l].orders@.len() && ls[l].orders@[k] == j;
                    let l2 = if l < i { l } else { l + 1 };
                    assert(ls2[l2] == ls[l]);
                    assert(ls2[l2].orders@[k] == j);
                }
                if !absent(ls2, j) {
                    let (l, k) = choose|l: int, k: int| 0 <= l < ls2.len() && 0 <= k < ls2[l].orders@.len() && ls2[l].orders@[k] == j;
                    if l < i {
                        assert(ls2[l] == ls[l]);
                        assert(ls[l].orders@[k] == j);
                    } else if l > i {
                        assert(ls2[l] == ls[l - 1]);
                        assert(ls[l - 1].orders@[k] == j);
                    }
                }
            }
            if i > 0 {
                assert(ls2[0] == ls[0]);
            } else if ls.len() > 0 {
                assert(ls2[1] == ls[0]);
            }
        }
    }
}

/// Takes the order at position `p` of level `l` out of `levels`, closing the
/// level if it empties.
fn remove_at(levels: &mut Vec<PriceLevel>, side: OrderSide, orders: &Vec<Order>, l: usize, p: usize)
    requires
        levels_ok(old(levels)@, side, orders@),
        l < old(levels)@.len(),
        p < old(levels)@[l as int].orders@.len(),
        forall|i: int| 0 <= i < orders@.len() ==> (#[trigger] orders@[i]).filled_quantity <= orders@[i].quantity,
    ensures
        levels_ok(final(levels)@, side, orders@),
        absent(final(levels)@, old(levels)@[l as int].orders@[p as int] as int),
        others_rest_alike(old(levels)@, final(levels)@, old(levels)@[l as int].orders@[p as int] as int),
        final(levels)@.len() == 0 || (final(levels)@[0].price == old(levels)@[0].price || (l == 0
            && old(levels)@.len() > 1 && final(levels)@[0].price == old(levels)@[1].price)),
        old(levels)@[l as int].orders@.len() > 1 ==> final(levels)@.len() == old(levels)@.len()
            && final(levels)@[0].price == old(levels)@[0].price,
        l > 0 ==> final(levels)@.len() > 0 && final(levels)@[0].price == old(levels)@[0].price,
        final(levels)@.len() <= old(levels)@.len(),
{
    let ghost ls = levels@;
    let mut lvl = levels.remove(l);
    let ghost ids = lvl.orders@;
    let id = lvl.orders[p];
    let ghost t = level_terms(orders@, ids);
    proof {
        assert(ls[l as int] == lvl);
        assert(1 <= ids[p as int] <= orders@.len());
        assert(all_nonneg(t)) by {
            assert forall|k: int| 0 <= k < t.len() implies #[trigger] t[k] >= 0 by {
                assert(ls[l as int].orders@[k] == ids[k]);
                assert(1 <= ids[k] <= orders@.len());
            }
        }
        lemma_elem_le_sum(t, p as int);
        assert(level_terms(orders@, ids.remove(p as int)) =~= t.remove(p as int));
        lemma_sum_remove(t, p as int);
    }
    let k = slot(id, orders.len());
    let rem = (orders[k].quantity - orders[k].filled_quantity) as u128;
    lvl.orders.remove(p);
    lvl.total_quantity = lvl.total_quantity - rem;
    let ghost lvl2 = lvl;
    let emptied = lvl.orders.len() == 0;
    if !emptied {
        levels.insert(l, lvl);
    }
    proof {
        let ls2 = levels@;
        assert(lvl2.orders@ =~= ids.remove(p as int));
        assert forall|a: int, b: int| 0 <= a < b < lvl2.orders@.len() implies lvl2.orders@[a] != lvl2.orders@[b] by {
            let a0 = if a < p { a } else { a + 1 };
            let b0 = if b < p { b } else { b + 1 };
            assert(ls[l as int].orders@[a0] != ls[l as int].orders@[b0]);
        }
        assert forall|a: int| 0 <= a < lvl2.orders@.len() implies lvl2.orders@[a] != id by {
            let a0 = if a < p { a } else { a + 1 };
            if a0 < p {
                assert(ls[l as int].orders@[a0] != ls[l as int].orders@[p as int]);
            } else {
                assert(ls[l as int].orders@[p as int] != ls[l as int].orders@[a0]);
            }
        }
        if emptied {
            assert(ls2 =~= ls.remove(l as int));
        } else {
            assert(ls2 =~= ls.update(l as int, lvl2));
        }
        // index in the old levels of level `m` of the new ones
        assert forall|m: int| 0 <= m < ls2.len() implies (#[trigger] ls2[m]) == (if m == l && !emptied { lvl2 } else if m < l || !emptied { ls[m] } else { ls[m + 1] }) by {}
        assert forall|a: int, b: int| 0 <= a < b < ls2.len() implies better(side, #[trigger] ls2[a].price, #[trigger] ls2[b].price) by {
            let a0 = if a < l || !emptied { a } else { a + 1 };
            let b0 = if b < l || !emptied { b } else { b + 1 };
            assert(better(side, ls[a0].price, ls[b0].price));
        }
        assert forall|m: int| 0 <= m < ls2.len() implies (#[trigger] ls2[m]).orders@.len() > 0 by {
            let m0 = if m < l || !emptied { m } else { m + 1 };
            assert(ls[m0].orders@.len() > 0);
        }
        assert forall|m: int| 0 <= m < ls2.len() implies (#[trigger] ls2[m]).total_quantity == sum(level_terms(orders@, ls2[m].orders@)) by {
            let m0 = if m < l || !emptied { m } else { m + 1 };
            assert(ls[m0].total_quantity == sum(level_terms(orders@, ls[m0].orders@)));
        }
        assert forall|m: int, i: int| 0 <= m < ls2.len() && 0 <= i < ls2[m].orders@.len() implies {
            let x = #[trigger] ls2[m].orders@[i];
            &&& 1 <= x <= orders@.len()
            &&& orders@[x - 1].side == side
            &&& orders@[x - 1].price == ls2[m].price
            &&& is_live(orders@[x - 1])
        } by {
            let m0 = if m < l || !emptied { m } else { m + 1 };
            if m == l && !emptied {
                let i0 = if i < p { i } else { i + 1 };
                assert(ls[m0].orders@[i0] == ls2[m].orders@[i]);
            } else {
                assert(ls[m0].orders@[i] == ls2[m].orders@[i]);
            }
        }
        assert forall|m: int, a: int, b: int| 0 <= m < ls2.len() && 0 <= a < b < ls2[m].orders@.len()
            implies #[trigger] ls2[m].orders@[a] != #[trigger] ls2[m].orders@[b] by {
            let m0 = if m < l || !emptied { m } else { m + 1 };
            if !(m == l && !emptied) {
                assert(ls[m0].orders@[a] != ls[m0].orders@[b]);
            }
        }
        assert forall|m: int, i: int| 0 <= m < ls2.len() && 0 <= i < ls2[m].orders@.len() implies #[trigger] ls2[m].orders@[i] != id as int by {
            let m0 = if m < l || !emptied { m } else { m + 1 };
            if !(m == l && !emptied) {
                assert(ls[m0].price != ls[l as int].price) by {
                    if m0 < l {
                        assert(better(side, ls[m0].price, ls[l as int].price));
                    } else {
                        assert(better(side, ls[l as int].price, ls[m0].price));
                    }
                }
                assert(ls[m0].orders@[i] == ls2[m].orders@[i]);
            }
        }
        assert forall|j: int| j != id implies #[trigger] absent(ls2, j) == absent(ls, j) by {
            if !absent(ls, j) {
                let (m, i) = choose|m: int, i: int| 0 <= m < ls.len() && 0 <= i < ls[m].orders@.len() && ls[m].orders@[i] == j;
                if m == l {
                    assert(i != p);
                    let i2 = if i < p { i } else { i - 1 };
                    assert(lvl2.orders@[i2] == j);
                    assert(ls2[m].orders@[i2] == j);
                } else {
                    let m2 = if m < l || !emptied { m } else { m - 1 };
                    assert(ls2[m2] == ls[m]);
                    assert(ls2[m2].orders@[i] == j);
                }
            }
            if !absent(ls2, j) {
                let (m, i) = choose|m: int, i: int| 0 <= m < ls2.len() && 0 <= i < ls2[m].orders@.len() && ls2[m].orders@[i] == j;
                let m0 = if m < l || !emptied { m } else { m + 1 };
                if m == l && !emptied {
                    let i0 = if i < p { i } else { i + 1 };
                    assert(ls[m0].orders@[i0] == j);
                } else {
                    assert(ls[m0].orders@[i] == j);
                }
            }
        }
    }
}

/// Where order `id` rests in `levels`, if it does.
fn find_resting(levels: &Vec<PriceLevel>, side: OrderSide, orders: &Vec<Order>, id: OrderId) -> (r: Option<(usize, usize)>)
    requires
        levels_ok(levels@, side, orders@),
        1 <= id <= orders@.len(),
    ensures
        match r {
            Some((l, p)) => l < levels@.len() && p < levels@[l as int].orders@.len() && levels@[l as int].orders@[p as int] == id,
            None => absent(levels@, id as int),
        },
{
    let price = orders[slot(id, orders.len())].price;
    let mut l: usize = 0;
    while l < levels.len() && levels[l].price != price
        invariant
            l <= levels@.len(),
            forall|m: int| 0 <= m < l ==> (#[trigger] levels@[m]).price != price,
        decreases levels@.len() - l,
    {
        l = l + 1;
    }
    if l == levels.len() {
        proof {
            assert forall|m: int, i: int| 0 <= m < levels@.len() && 0 <= i < levels@[m].orders@.len() implies #[trigger] levels@[m].orders@[i] != id as int by {
                if levels@[m].orders@[i] == id {
                    assert(orders@[id - 1].price == levels@[m].price);
                }
            }
        }
        return None;
    }
    let mut p: usize = 0;
    while p < levels[l].orders.len()
        invariant
            l < levels@.len(),
            p <= levels@[l as int].orders@.len(),
            forall|i: int| 0 <= i < p ==> (#[trigger] levels@[l as int].orders@[i]) != id,
        decreases levels@[l as int].orders@.len() - p,
    {
        if levels[l].orders[p] == id {
            return Some((l, p));
        }
        p = p + 1;
    }
    proof {
        assert forall|m: int, i: int| 0 <= m < levels@.len() && 0 <= i < levels@[m].orders@.len() implies #[trigger] levels@[m].orders@[i] != id as int by {
            if m != l && levels@[m].orders@[i] == id {
                assert(orders@[id - 1].price == levels@[m].price);
                if m < l {
                    assert(better(side, levels@[m].price, levels@[l as int].price));
                } else {
                    assert(better(side, levels@[l as int].price, levels@[m].price));
                }
            }
        }
    }
    None
}

/// The lock sums after order `k` of `orders` becomes `o2`.
proof fn lemma_lock_terms_update(orders: Seq<Order>, k: int, o2: Order, u: Account, a: Seq<char>, base: Seq<char>, quote: Seq<char>)
    requires
        0 <= k < orders.len(),
    ensures
        sum(lock_terms(orders.update(k, o2), u, a, base, quote)) == sum(lock_terms(orders, u, a, base, quote))
            - lock_term(orders[k], u, a, base, quote) + lock_term(o2, u, a, base, quote),
{
    assert(lock_terms(orders.update(k, o2), u, a, base, quote) =~= lock_terms(orders, u, a, base, quote).update(k, lock_term(o2, u, a, base, quote)));
    lemma_sum_update(lock_terms(orders, u, a, base, quote), k, lock_term(o2, u, a, base, quote));
}

impl OrderBookState {
    /// Orders and ledger of `self` are those of `prev`, but order `k` now keeps
    /// `d` more locked, and so does its owner in the ledger.
    pub open spec fn lock_shift(&self, prev: &Self, k: int, d: int) -> bool {
        let o = prev.orders@[k];
        let o2 = self.orders@[k];
        &&& 0 <= k < prev.orders@.len()
        &&& self.orders@ == prev.orders@.update(k, o2)
        &&& o2.user == o.user
        &&& o2.side == o.side
        &&& o2.reserved == o.reserved + d
        &&& self.base() == prev.base()
        &&& self.quote() == prev.quote()
        &&& forall|u: Account, a: Seq<char>| #[trigger] self.ledger.balance(Holder::Locked(u), a)
            == prev.ledger.balance(Holder::Locked(u), a) + delta(Holder::Locked(u), a, Holder::Locked(o.user), lock_asset(o, prev.base(), prev.quote()), d)
    }
}

proof fn lemma_lock_shift(prev: &OrderBookState, st: &OrderBookState, k: int, d: int)
    requires
        prev.locks_ok(),
        st.lock_shift(prev, k, d),
    ensures
        st.locks_ok(),
{
    let o2 = st.orders@[k];
    assert forall|u: Account, a: Seq<char>| #[trigger] st.ledger.balance(Holder::Locked(u), a) == st.reserved_total(u, a) by {
        lemma_lock_terms_update(prev.orders@, k, o2, u, a, prev.base(), prev.quote());
        assert(prev.ledger.balance(Holder::Locked(u), a) == prev.reserved_total(u, a));
    }
}

proof fn lemma_reserved_covered(st: &OrderBookState, k: int)
    requires
        st.locks_ok(),
        0 <= k < st.orders@.len(),
    ensures
        st.ledger.locked(st.orders@[k].user, lock_asset(st.orders@[k], st.base(), st.quote())) >= st.orders@[k].reserved,
{
    let o = st.orders@[k];
    let a = lock_asset(o, st.base(), st.quote());
    let t = lock_terms(st.orders@, o.user, a, st.base(), st.quote());
    assert(all_nonneg(t));
    lemma_elem_le_sum(t, k);
    assert(st.ledger.balance(Holder::Locked(o.user), a) == st.reserved_total(o.user, a));
}

impl OrderBookContract {
    /// Closes live order `k`, which rests nowhere, with `status`, and unlocks
    /// what it kept locked.
    fn close_order(&mut self, k: usize, status: OrderStatus)
        requires
            old(self).state.wf(),
            k < old(self).state.orders@.len(),
            is_live(old(self).state.orders@[k as int]),
            absent(old(self).state.bids@, k + 1),
            absent(old(self).state.asks@, k + 1),
            status == OrderStatus::Cancelled || status == OrderStatus::Expired,
        ensures
            final(self).state.wf(),
            ({
                let o = old(self).state.orders@[k as int];
                let o2 = final(self).state.orders@[k as int];
                &&& final(self).state.orders@ == old(self).state.orders@.update(k as int, o2)
                &&& o2 == (Order { status, reserved: 0, ..o })
                &&& final(self).state.ledger.moved(&old(self).state.ledger, lock_asset(o, old(self).state.base(), old(self).state.quote()),
                    Holder::Locked(o.user), -o.reserved, Holder::Free(o.user), o.reserved as int)
            }),
            final(self).state.ledger.same_flows(&old(self).state.ledger),
            final(self).state.bids@ == old(self).state.bids@,
            final(self).state.asks@ == old(self).state.asks@,
            final(self).state.trades@ == old(self).state.trades@,
            final(self).state.config == old(self).state.config,
            final(self).state.best_bid == old(self).state.best_bid,
            final(self).state.best_ask == old(self).state.best_ask,
            final(self).state.market_stats == old(self).state.market_stats,
    {
        let ghost prev = self.state;
        proof {
            lemma_reserved_covered(&prev, k as int);
        }
        let o = self.state.orders[k];
        let asset = if o.side == OrderSide::Buy { self.state.config.quote_asset.clone() } else { self.state.config.base_asset.clone() };
        self.state.ledger.unlock(o.user, &asset, o.reserved);
        let o2 = Order { status, reserved: 0, ..o };
        self.state.orders.set(k, o2);
        proof {
            let st = self.state;
            assert(st.orders@ =~= prev.orders@.update(k as int, o2));
            assert forall|u: Account, a: Seq<char>| #[trigger] st.ledger.balance(Holder::Locked(u), a)
                == prev.ledger.balance(Holder::Locked(u), a) + delta(Holder::Locked(u), a, Holder::Locked(o.user), lock_asset(o, prev.base(), prev.quote()), -o.reserved) by {}
            lemma_lock_shift(&prev, &st, k as int, -o.reserved);
            lemma_levels_untouched(prev.bids@, OrderSide::Buy, prev.orders@, k as int, o2);
            lemma_levels_untouched(prev.asks@, OrderSide::Sell, prev.orders@, k as int, o2);
            assert forall|i: int| 0 <= i < st.orders@.len() implies order_ok(#[trigger] st.orders@[i]) by {
                if i != k {
                    assert(st.orders@[i] == prev.orders@[i]);
                }
            }
            assert forall|i: int| 0 <= i < st.orders@.len() implies #[trigger] st.orders@[i].id == i + 1 by {
                if i != k {
                    assert(st.orders@[i] == prev.orders@[i]);
                }
            }
        }
    }

    /// Recomputes the best prices from the levels.
    fn refresh_best(&mut self)
        ensures
            final(self).state.best_bid == best_of(final(self).state.bids@),
            final(self).state.best_ask == best_of(final(self).state.asks@),
            final(self).state.bids@ == old(self).state.bids@,
            final(self).state.asks@ == old(self).state.asks@,
            final(self).state.orders@ == old(self).state.orders@,
            final(self).state.ledger == old(self).state.ledger,
            final(self).state.config == old(self).state.config,
            final(self).state.trades@ == old(self).state.trades@,
            final(self).state.next_order_id == old(self).state.next_order_id,
            final(self).state.market_stats.last_price == old(self).state.market_stats.last_price,
    {
        self.state.best_bid = if self.state.bids.len() == 0 { None } else { Some(self.state.bids[0].price) };
        self.state.best_ask = if self.state.asks.len() == 0 { None } else { Some(self.state.asks[0].price) };
        self.state.market_stats.best_bid = match self.state.best_bid { Some(p) => p, None => 0 };
        self.state.market_stats.best_ask = match self.state.best_ask { Some(p) => p, None => 0 };
    }

    /// What `cancel_order` returns.
    pub open spec fn cancel_outcome(&self, caller: Account, id: OrderId) -> Result<(), OrderBookError> {
        let st = self.state;
        if !st.has(id as int) {
            Err(OrderBookError::OrderNotFound { order_id: id })
        } else if st.get(id as int).user != caller {
            Err(OrderBookError::Unauthorized)
        } else if !is_live(st.get(id as int)) {
            Err(OrderBookError::OrderNotModifiable { status: st.get(id as int).status })
        } else {
            Ok(())
        }
    }

    /// `self` is `prev` after live order `id` of `caller` was cancelled.
    pub open spec fn order_cancelled(&self, prev: &Self, caller: Account, id: OrderId) -> bool {
        let o = prev.state.get(id as int);
        let st = self.state;
        &&& st.orders@ == prev.state.orders@.update(id - 1, Order { status: OrderStatus::Cancelled, reserved: 0, ..o })
        &&& st.ledger.moved(&prev.state.ledger, lock_asset(o, prev.state.base(), prev.state.quote()),
            Holder::Locked(caller), -o.reserved, Holder::Free(caller), o.reserved as int)
        &&& absent(st.bids@, id as int)
        &&& absent(st.asks@, id as int)
        &&& others_rest_alike(prev.state.bids@, st.bids@, id as int)
        &&& others_rest_alike(prev.state.asks@, st.asks@, id as int)
        &&& opposite(&st, o.side) == opposite(&prev.state, o.side)
        &&& st.next_order_id == prev.state.next_order_id
        &&& st.ledger.same_flows(&prev.state.ledger)
        &&& st.trades@ == prev.state.trades@
        &&& st.config == prev.state.config
    }

    /// Cancels a live order of the caller: it leaves the book and what it kept
    /// locked goes back to the caller's free balance.
    pub fn cancel_order(&mut self, caller: Account, id: OrderId) -> (r: Result<(), OrderBookError>)
        requires
            old(self).state.wf(),
        ensures
            final(self).state.wf(),
            r == old(self).cancel_outcome(caller, id),
            r is Err ==> final(self).state.unchanged_from(&old(self).state),
            r is Ok ==> final(self).order_cancelled(old(self), caller, id),
            final(self).state.next_order_id == old(self).state.next_order_id,
            final(self).state.ledger.same_flows(&old(self).state.ledger),
            final(self).state.trades@ == old(self).state.trades@,
            final(self).state.config == old(self).state.config,
    {
        if id == 0 || id >= self.state.next_order_id {
            return Err(OrderBookError::OrderNotFound { order_id: id });
        }
        let k = slot(id, self.state.orders.len());
        let o = self.state.orders[k];
        if o.user != caller {
            return Err(OrderBookError::Unauthorized);
        }
        if !o.is_active() {
            return Err(OrderBookError::OrderNotModifiable { status: o.status });
        }
        let ghost prev = self.state;
        proof {
            assert(order_ok(prev.orders@[k as int]));
        }
        if o.side == OrderSide::Buy {
            match find_resting(&self.state.bids, OrderSide::Buy, &self.state.orders, id) {
                Some((l, p)) => {
                    remove_at(&mut self.state.bids, OrderSide::Buy, &self.state.orders, l, p);
                },
                None => {},
            }
            proof {
                lemma_absent_other_side(prev.asks@, OrderSide::Sell, prev.orders@, k as int);
            }
        } else {
            match find_resting(&self.state.asks, OrderSide::Sell, &self.state.orders, id) {
                Some((l, p)) => {
                    remove_at(&mut self.state.asks, OrderSide::Sell, &self.state.orders, l, p);
                },
                None => {},
            }
            proof {
                lemma_absent_other_side(prev.bids@, OrderSide::Buy, prev.orders@, k as int);
            }
        }
        self.refresh_best();
        self.close_order(k, OrderStatus::Cancelled);
        Ok(())
    }
}

/// Paying for `q` at `p` out of a lock taken for `r` at `big >= p` leaves
/// enough locked for the other `r - q` at `big`.
proof fn lemma_cost_split(big: int, p: int, r: int, q: int)
    requires
        0 <= p <= big,
        0 <= q <= r,
    ensures
        quote_cost(p, q) + quote_cost(big, r - q) <= quote_cost(big, r),
        0 <= quote_cost(p, q),
{
    let d = PRICE_SCALE as int;
    assert(p * q <= big * q) by (nonlinear_arith)
        requires p <= big, q >= 0;
    assert(0 <= p * q) by (nonlinear_arith)
        requires p >= 0, q >= 0;
    vstd::arithmetic::div_mod::lemma_div_is_ordered(p * q, big * q, d);
    vstd::arithmetic::div_mod::lemma_div_is_ordered(0, p * q, d);
    let x = big * q;
    let y = big * (r - q);
    assert(x + y == big * r) by (nonlinear_arith)
        requires x == big * q, y == big * (r - q);
    assert(x >= 0 && y >= 0) by (nonlinear_arith)
        requires big >= 0, q >= 0, r - q >= 0, x == big * q, y == big * (r - q);
    vstd::arithmetic::div_mod::lemma_fundamental_div_mod(x, d);
    vstd::arithmetic::div_mod::lemma_fundamental_div_mod(y, d);
    vstd::arithmetic::div_mod::lemma_fundamental_div_mod(x + y, d);
    let a = x / d;
    let b = y / d;
    let c = (x + y) / d;
    assert(0 <= x % d < d && 0 <= y % d < d && 0 <= (x + y) % d < d);
    assert(a + b <= c) by (nonlinear_arith)
        requires
            x == d * a + x % d,
            y == d * b + y % d,
            x + y == d * c + (x + y) % d,
            0 <= x % d < d,
            0 <= y % d < d,
            0 <= (x + y) % d < d,
            d > 0;
}

/// After the front order of the best level filled `q` but still rests, the
/// level's total dropped by `q` and the levels stay well formed.
proof fn lemma_front_partial(levels: Seq<PriceLevel>, levels2: Seq<PriceLevel>, side: OrderSide, orders: Seq<Order>, q: int, o2: Order)
    requires
        levels_ok(levels, side, orders),
        levels.len() > 0,
        levels[0].orders@.len() > 0,
        levels2.len() == levels.len(),
        levels2[0].price == levels[0].price,
        levels2[0].orders@ == levels[0].orders@,
        levels2[0].total_quantity == levels[0].total_quantity - q,
        forall|l: int| 0 < l < levels.len() ==> #[trigger] levels2[l] == levels[l],
        o2.side == orders[levels[0].orders@[0] - 1].side,
        o2.price == orders[levels[0].orders@[0] - 1].price,
        is_live(o2),
        remaining(o2) == remaining(orders[levels[0].orders@[0] - 1]) - q,
    ensures
        levels_ok(levels2, side, orders.update(levels[0].orders@[0] - 1, o2)),
{
    let m = levels[0].orders@[0];
    assert(1 <= m <= orders.len());
    let orders2 = orders.update(m - 1, o2);
    let ids0 = levels[0].orders@;
    assert(level_terms(orders2, ids0) =~= level_terms(orders, ids0).update(0, remaining(o2))) by {
        assert forall|i: int| 0 < i < ids0.len() implies ids0[i] != m by {
            assert(levels[0].orders@[0] != levels[0].orders@[i]);
        }
    }
    lemma_sum_update(level_terms(orders, ids0), 0, remaining(o2));
    assert forall|l: int, m2: int| 0 <= l < m2 < levels2.len() implies better(side, #[trigger] levels2[l].price, #[trigger] levels2[m2].price) by {
        assert(better(side, levels[l].price, levels[m2].price));
    }
    assert forall|l: int| 0 <= l < levels2.len() implies (#[trigger] levels2[l]).orders@.len() > 0 by {
        assert(levels[l].orders@.len() > 0);
    }
    assert forall|l: int| 0 <= l < levels2.len() implies (#[trigger] levels2[l]).total_quantity == sum(
        level_terms(orders2, levels2[l].orders@)) by {
        if l > 0 {
            let ids = levels[l].orders@;
            assert forall|i: int| 0 <= i < ids.len() implies orders2[ids[i] - 1] == orders[ids[i] - 1] by {
                let x = levels[l].orders@[i];
                assert(1 <= x <= orders.len());
                assert(orders[x - 1].price == levels[l].price);
                assert(better(side, levels[0].price, levels[l].price));
                assert(orders[m - 1].price == levels[0].price);
            }
            assert(level_terms(orders2, ids) =~= level_terms(orders, ids));
            assert(levels2[l] == levels[l]);
        }
    }
    assert forall|l: int, i: int|
        0 <= l < levels2.len() && 0 <= i < levels2[l].orders@.len() implies {
            let id = #[trigger] levels2[l].orders@[i];
            &&& 1 <= id <= orders2.len()
            &&& orders2[id - 1].side == side
            &&& orders2[id - 1].price == levels2[l].price
            &&& is_live(orders2[id - 1])
        } by {
        if l > 0 {
            assert(levels2[l] == levels[l]);
        }
        let id = levels[l].orders@[i];
        assert(levels2[l].orders@[i] == id);
        assert(1 <= id <= orders.len());
    }
    assert forall|l: int, i: int, j: int|
        0 <= l < levels2.len() && 0 <= i < j < levels2[l].orders@.len() implies #[trigger] levels2[l].orders@[i]
            != #[trigger] levels2[l].orders@[j] by {
        if l > 0 {
            assert(levels2[l] == levels[l]);
        }
        assert(levels[l].orders@[i] != levels[l].orders@[j]);
    }
}

/// Lowers the total of the best level by `q`, which its front order filled.
fn reduce_front(levels: &mut Vec<PriceLevel>, side: OrderSide, orders: &Vec<Order>, q: Quantity)
    requires
        levels_ok(old(levels)@, side, orders@),
        old(levels)@.len() > 0,
        forall|i: int| 0 <= i < orders@.len() ==> (#[trigger] orders@[i]).filled_quantity <= orders@[i].quantity,
        q <= remaining(orders@[old(levels)@[0].orders@[0] - 1]),
    ensures
        final(levels)@.len() == old(levels)@.len(),
        final(levels)@[0].price == old(levels)@[0].price,
        final(levels)@[0].orders@ == old(levels)@[0].orders@,
        final(levels)@[0].total_quantity == old(levels)@[0].total_quantity - q,
        forall|l: int| 0 < l < old(levels)@.len() ==> #[trigger] final(levels)@[l] == old(levels)@[l],
{
    let ghost ls = levels@;
    let mut lvl = levels.remove(0);
    proof {
        assert(ls[0] == lvl);
        let t = level_terms(orders@, lvl.orders@);
        assert(lvl.orders@.len() > 0);
        assert(all_nonneg(t)) by {
            assert forall|k: int| 0 <= k < t.len() implies #[trigger] t[k] >= 0 by {
                assert(ls[0].orders@[k] == lvl.orders@[k]);
                assert(1 <= lvl.orders@[k] <= orders@.len());
            }
        }
        lemma_elem_le_sum(t, 0);
    }
    lvl.total_quantity = lvl.total_quantity - q as u128;
    levels.insert(0, lvl);
    proof {
        assert forall|l: int| 0 < l < ls.len() implies #[trigger] levels@[l] == ls[l] by {}
    }
}

/// What the two parties of a fill at `p` for `q` receive: base for the buyer,
/// quote for the seller.
pub open spec fn fill_cost(p: Price, q: Quantity) -> int {
    quote_cost(p as int, q as int)
}

/// The fee of `bps` basis points on `amount`.
pub open spec fn fee_on(amount: int, bps: u64) -> int {
    (amount * bps) / (BPS_SCALE as int)
}

proof fn lemma_fee_le(amount: int, bps: u64)
    requires
        amount >= 0,
        bps <= BPS_SCALE,
    ensures
        0 <= fee_on(amount, bps) <= amount,
{
    assert(amount * bps <= amount * (BPS_SCALE as int)) by (nonlinear_arith)
        requires amount >= 0, bps <= BPS_SCALE;
    assert(0 <= amount * bps) by (nonlinear_arith)
        requires amount >= 0, bps >= 0;
    vstd::arithmetic::div_mod::lemma_div_is_ordered(amount * bps, amount * (BPS_SCALE as int), BPS_SCALE as int);
    vstd::arithmetic::div_mod::lemma_div_is_ordered(0, amount * bps, BPS_SCALE as int);
    assert(amount * (BPS_SCALE as int) / (BPS_SCALE as int) == amount) by (nonlinear_arith);
}

fn compute_fee(amount: u128, bps: u64) -> (r: u128)
    requires
        amount * (BPS_SCALE as int) <= u128::MAX,
        bps <= BPS_SCALE,
    ensures
        r == fee_on(amount as int, bps),
{
    proof {
        assert(amount * bps <= amount * 10000) by (nonlinear_arith)
            requires bps <= 10000;
    }
    (amount * bps as u128) / BPS_SCALE as u128
}

pub open spec fn min_int(a: int, b: int) -> int {
    if a < b {
        a
    } else {
        b
    }
}

/// Trade `t` was made against a resting order of `st` on the side opposite
/// to `side`, at that order's price.
pub open spec fn maker_ok(st: &OrderBookState, t: Trade, side: OrderSide) -> bool {
    &&& st.has(t.maker_order_id as int)
    &&& st.get(t.maker_order_id as int).price == t.price
    &&& st.get(t.maker_order_id as int).side != side
    &&& t.maker_side != side
    &&& t.quantity > 0
}

/// The quantity of the trades of `t` from position `from` on.
pub open spec fn traded(t: Seq<Trade>, from: int) -> int
    decreases t.len(),
{
    if t.len() == 0 || t.len() <= from {
        0
    } else {
        traded(t.drop_last(), from) + t.last().quantity
    }
}

/// Whether a resting price `p` crosses the limit `limit` of an incoming order of `side`.
pub open spec fn crosses(side: OrderSide, limit: Price, p: Price) -> bool {
    if side == OrderSide::Buy {
        p <= limit
    } else {
        p >= limit
    }
}

/// The levels opposite to an incoming order of `side`.
pub open spec fn opposite(st: &OrderBookState, side: OrderSide) -> Seq<PriceLevel> {
    if side == OrderSide::Buy {
        st.asks@
    } else {
        st.bids@
    }
}

/// The levels on the side of `side`.
pub open spec fn own_side(st: &OrderBookState, side: OrderSide) -> Seq<PriceLevel> {
    if side == OrderSide::Buy {
        st.bids@
    } else {
        st.asks@
    }
}

/// `o2` is `o` having filled more: only the fill, the lock and the status changed.
pub open spec fn same_order_terms(o: Order, o2: Order) -> bool {
    &&& o2.id == o.id
    &&& o2.user == o.user
    &&& o2.side == o.side
    &&& o2.order_type == o.order_type
    &&& o2.price == o.price
    &&& o2.quantity == o.quantity
    &&& o2.time_in_force == o.time_in_force
    &&& o2.timestamp == o.timestamp
    &&& o2.expires_at == o.expires_at
}

fn crosses_exec(side: OrderSide, limit: Price, p: Price) -> (r: bool)
    ensures
        r == crosses(side, limit, p),
{
    match side {
        OrderSide::Buy => p <= limit,
        OrderSide::Sell => p >= limit,
    }
}

impl OrderBookContract {
    /// Fills live order `k` against the oldest order of the best opposite level,
    /// at that order's price, for as much as both have left. Returns the
    /// quantity filled.
    #[verifier::rlimit(100)]
    fn fill_one(&mut self, k: usize, now: Timestamp) -> (r: Quantity)
        requires
            old(self).state.wf(),
            k < old(self).state.orders@.len(),
            is_live(old(self).state.orders@[k as int]),
            absent(old(self).state.bids@, k + 1),
            absent(old(self).state.asks@, k + 1),
            opposite(&old(self).state, old(self).state.orders@[k as int].side).len() > 0,
            crosses(old(self).state.orders@[k as int].side, old(self).state.orders@[k as int].price,
                opposite(&old(self).state, old(self).state.orders@[k as int].side)[0].price),
        ensures
            final(self).state.wf(),
            ({
                let t0 = old(self).state.orders@[k as int];
                let t1 = final(self).state.orders@[k as int];
                &&& 0 < r <= remaining(t0)
                &&& same_order_terms(t0, t1)
                &&& t1.filled_quantity == t0.filled_quantity + r
                &&& final(self).state.trades@.len() == old(self).state.trades@.len() + 1
                &&& final(self).state.trades@.drop_last() == old(self).state.trades@
                &&& final(self).state.trades@.last().price == opposite(&old(self).state, t0.side)[0].price
                &&& final(self).state.trades@.last().quantity == r
                &&& final(self).state.trades@.last().taker_order_id == t0.id
                &&& own_side(&final(self).state, t0.side) == own_side(&old(self).state, t0.side)
                // against the oldest order of the best opposite level, at its price
                &&& final(self).state.trades@.last().maker_order_id == opposite(&old(self).state, t0.side)[0].orders@[0]
                &&& maker_ok(&final(self).state, final(self).state.trades@.last(), t0.side)
                &&& r == min_int(remaining(t0), remaining(old(self).state.get(final(self).state.trades@.last().maker_order_id as int)))
                &&& final(self).state.market_stats.last_price == final(self).state.trades@.last().price
            }),
            forall|i: int| 0 <= i < old(self).state.orders@.len() ==> same_order_terms(old(self).state.orders@[i], #[trigger] final(self).state.orders@[i]),
            absent(final(self).state.bids@, k + 1),
            absent(final(self).state.asks@, k + 1),
            final(self).state.orders@.len() == old(self).state.orders@.len(),
            forall|i: int| 0 <= i < old(self).state.orders@.len() && i != k && !is_live(old(self).state.orders@[i])
                ==> #[trigger] final(self).state.orders@[i] == old(self).state.orders@[i],
            final(self).state.ledger.same_flows(&old(self).state.ledger),
            final(self).state.config == old(self).state.config,
            final(self).state.next_order_id == old(self).state.next_order_id,
    {
        let ghost s0 = self.state;
        let taker = self.state.orders[k];
        let taker_buys = taker.side == OrderSide::Buy;
        let m_id = if taker_buys { self.state.asks[0].orders[0] } else { self.state.bids[0].orders[0] };
        proof {
            let opp = opposite(&s0, taker.side);
            let opp_side = if taker_buys { OrderSide::Sell } else { OrderSide::Buy };
            assert(levels_ok(opp, opp_side, s0.orders@));
            assert(opp[0].orders@.len() > 0);
            assert(opp[0].orders@[0] == m_id);
            assert(1 <= m_id <= s0.orders@.len());
        }
        let mk = slot(m_id, self.state.orders.len());
        let maker = self.state.orders[mk];
        proof {
            assert(order_ok(taker));
            assert(order_ok(maker));
            assert(mk != k);
            assert(maker.side != taker.side);
            assert(is_live(maker));
        }
        let rem_t = taker.quantity - taker.filled_quantity;
        let rem_m = maker.quantity - maker.filled_quantity;
        let q: Quantity = if rem_t < rem_m { rem_t } else { rem_m };
        let p = maker.price;
        proof {
            assert((p as int) * (q as int) <= u64::MAX as int * u64::MAX as int) by (nonlinear_arith)
                requires p <= u64::MAX, q <= u64::MAX;
            assert(u64::MAX as int * u64::MAX as int <= u128::MAX);
        }
        let c: u128 = (p as u128 * q as u128) / PRICE_SCALE as u128;
        proof {
            assert(c == fill_cost(p, q));
            assert(c * 10000 <= u128::MAX) by (nonlinear_arith)
                requires c == (p as int * q as int) / 100_000_000, p as int * q as int <= u64::MAX as int * u64::MAX as int;
        }
        let maker_done = q == rem_m;
        // the book: the maker leaves its level, or the level's total drops
        if taker_buys {
            if maker_done {
                remove_at(&mut self.state.asks, OrderSide::Sell, &self.state.orders, 0, 0);
            } else {
                reduce_front(&mut self.state.asks, OrderSide::Sell, &self.state.orders, q);
            }
        } else {
            if maker_done {
                remove_at(&mut self.state.bids, OrderSide::Buy, &self.state.orders, 0, 0);
            } else {
                reduce_front(&mut self.state.bids, OrderSide::Buy, &self.state.orders, q);
            }
        }
        let ghost s1 = self.state;
        // the ledger: each side pays out of its lock
        let quote = self.state.config.quote_asset.clone();
        let base = self.state.config.base_asset.clone();
        let (bk, sk) = if taker_buys { (k, mk) } else { (mk, k) };
        let buyer = self.state.orders[bk];
        let seller = self.state.orders[sk];
        proof {
            lemma_reserved_covered(&s0, bk as int);
            lemma_reserved_covered(&s0, sk as int);
            assert(buyer.side == OrderSide::Buy && seller.side == OrderSide::Sell);
            assert(buyer.price >= p);
            lemma_cost_split(buyer.price as int, p as int, remaining(buyer), q as int);
            assert(buyer.reserved >= remaining_lock(buyer));
            assert(remaining(buyer) >= q && remaining(seller) >= q);
        }
        self.state.ledger.move_locked(buyer.user, seller.user, &quote, c);
        let ghost l1 = self.state.ledger;
        proof {
            assert(l1.locked(seller.user, base@) == s0.ledger.locked(seller.user, base@));
        }
        self.state.ledger.move_locked(seller.user, buyer.user, &base, q as u128);
        let ghost l2 = self.state.ledger;
        let b_filled = buyer.filled_quantity + q;
        let b_left = buyer.reserved - c;
        let b_done = b_filled == buyer.quantity;
        if b_done {
            proof {
                assert(l2.locked(buyer.user, quote@) == s0.ledger.locked(buyer.user, quote@) - c);
            }
            self.state.ledger.unlock(buyer.user, &quote, b_left);
        }
        let ghost l3 = self.state.ledger;
        let s_filled = seller.filled_quantity + q;
        let s_left = seller.reserved - q as u128;
        let s_done = s_filled == seller.quantity;
        if s_done {
            proof {
                assert(l3.locked(seller.user, base@) == s0.ledger.locked(seller.user, base@) - q);
            }
            self.state.ledger.unlock(seller.user, &base, s_left);
        }
        let ghost l4 = self.state.ledger;
        let nb = Order {
            filled_quantity: b_filled,
            reserved: if b_done { 0 } else { b_left },
            status: if b_done { OrderStatus::Filled } else { OrderStatus::PartiallyFilled },
            ..buyer
        };
        let ns = Order {
            filled_quantity: s_filled,
            reserved: if s_done { 0 } else { s_left },
            status: if s_done { OrderStatus::Filled } else { OrderStatus::PartiallyFilled },
            ..seller
        };
        // fees on what each side receives
        let taker_fee_bps = self.state.config.taker_fee_bps;
        let maker_fee_bps = self.state.config.maker_fee_bps;
        let (t_asset, t_recv, m_asset, m_recv) = if taker_buys {
            (base.clone(), q as u128, quote.clone(), c)
        } else {
            (quote.clone(), c, base.clone(), q as u128)
        };
        let fee_t = compute_fee(t_recv, taker_fee_bps);
        let fee_m = compute_fee(m_recv, maker_fee_bps);
        proof {
            lemma_fee_le(t_recv as int, taker_fee_bps);
            lemma_fee_le(m_recv as int, maker_fee_bps);
            assert(l4.free(taker.user, t_asset@) >= s0.ledger.free(taker.user, t_asset@) + t_recv);
            s0.ledger.lemma_balance_bounds(Holder::Free(taker.user), t_asset@);
        }
        let rt = self.state.ledger.charge_fee(taker.user, &t_asset, fee_t);
        let ghost l5 = self.state.ledger;
        proof {
            assert(rt is Ok);
            assert(l5.free(maker.user, m_asset@) >= s0.ledger.free(maker.user, m_asset@) + m_recv);
            s0.ledger.lemma_balance_bounds(Holder::Free(maker.user), m_asset@);
        }
        let rm = self.state.ledger.charge_fee(maker.user, &m_asset, fee_m);
        proof {
            assert(rm is Ok);
        }
        self.state.orders.set(bk, nb);
        self.state.orders.set(sk, ns);
        let trade = Trade {
            id: self.state.next_trade_id,
            maker_order_id: maker.id,
            taker_order_id: taker.id,
            price: p,
            quantity: q,
            timestamp: now,
            maker: maker.user,
            taker: taker.user,
            maker_side: maker.side,
        };
        self.state.trades.push(trade);
        self.state.next_trade_id = self.state.next_trade_id.saturating_add(1);
        self.state.market_stats.last_price = p;
        self.state.market_stats.volume_24h = self.state.market_stats.volume_24h.saturating_add(q);
        if p > self.state.market_stats.high_24h {
            self.state.market_stats.high_24h = p;
        }
        if self.state.market_stats.low_24h == 0 || p < self.state.market_stats.low_24h {
            self.state.market_stats.low_24h = p;
        }
        self.state.market_stats.total_trades = self.state.market_stats.total_trades.saturating_add(1);
        self.refresh_best();
        proof {
            let st = self.state;
            let o0 = s0.orders@;
            let nm = if taker_buys { ns } else { nb };
            let nt = if taker_buys { nb } else { ns };
            let om = o0.update(mk as int, nm);
            assert(st.orders@ =~= om.update(k as int, nt));
            assert(st.orders@ =~= o0.update(bk as int, nb).update(sk as int, ns));
            // each order's own bookkeeping
            assert(order_ok(nb));
            assert(order_ok(ns));
            assert forall|i: int| 0 <= i < st.orders@.len() implies order_ok(#[trigger] st.orders@[i]) && st.orders@[i].id == i + 1 by {
                if i != k && i != mk {
                    assert(st.orders@[i] == o0[i]);
                }
            }
            // locks
            assert forall|u: Account, a: Seq<char>| #[trigger] st.ledger.balance(Holder::Locked(u), a) == st.reserved_total(u, a) by {
                lemma_lock_terms_update(o0, bk as int, nb, u, a, s0.base(), s0.quote());
                lemma_lock_terms_update(o0.update(bk as int, nb), sk as int, ns, u, a, s0.base(), s0.quote());
                assert(s0.ledger.balance(Holder::Locked(u), a) == s0.reserved_total(u, a));
                assert(l1.balance(Holder::Locked(u), a) == s0.ledger.balance(Holder::Locked(u), a) + delta(Holder::Locked(u), a, Holder::Locked(buyer.user), quote@, -c));
                assert(l2.balance(Holder::Locked(u), a) == l1.balance(Holder::Locked(u), a) + delta(Holder::Locked(u), a, Holder::Locked(seller.user), base@, -q));
                assert(l3.balance(Holder::Locked(u), a) == l2.balance(Holder::Locked(u), a) + if b_done { delta(Holder::Locked(u), a, Holder::Locked(buyer.user), quote@, -b_left) } else { 0 });
                assert(l4.balance(Holder::Locked(u), a) == l3.balance(Holder::Locked(u), a) + if s_done { delta(Holder::Locked(u), a, Holder::Locked(seller.user), base@, -s_left) } else { 0 });
                assert(l5.balance(Holder::Locked(u), a) == l4.balance(Holder::Locked(u), a));
            }
            // the book
            let opp_side = if taker_buys { OrderSide::Sell } else { OrderSide::Buy };
            let own = if taker_buys { OrderSide::Buy } else { OrderSide::Sell };
            let opp0 = opposite(&s0, taker.side);
            let opp1 = opposite(&s1, taker.side);
            let own0 = own_side(&s0, taker.side);
            assert(levels_ok(opp0, opp_side, o0));
            assert(levels_ok(own0, own, o0));
            assert(absent(opp0, k + 1));
            if maker_done {
                assert(levels_ok(opp1, opp_side, o0));
                assert(absent(opp1, m_id as int));
                assert(absent(opp1, k + 1)) by {
                    assert(absent(opp1, k + 1) == absent(opp0, k + 1));
                }
                assert(m_id == mk + 1);
                lemma_levels_untouched(opp1, opp_side, o0, mk as int, nm);
            } else {
                assert(nm.side == o0[mk as int].side && nm.price == o0[mk as int].price);
                assert(is_live(nm));
                lemma_front_partial(opp0, opp1, opp_side, o0, q as int, nm);
                assert(absent(opp1, k + 1)) by {
                    assert forall|l: int, i: int| 0 <= l < opp1.len() && 0 <= i < opp1[l].orders@.len() implies #[trigger] opp1[l].orders@[i] != k + 1 by {
                        if l > 0 {
                            assert(opp1[l] == opp0[l]);
                        }
                        assert(opp0[l].orders@[i] != k + 1);
                    }
                }
            }
            lemma_levels_untouched(opp1, opp_side, om, k as int, nt);
            lemma_absent_other_side(own0, own, o0, mk as int);
            lemma_levels_untouched(own0, own, o0, mk as int, nm);
            lemma_levels_untouched(own0, own, om, k as int, nt);
            assert(absent(st.bids@, k + 1) && absent(st.asks@, k + 1)) by {
                assert(absent(opp1, k + 1));
            }
        }
        q
    }
}

/// The quantity resting on `levels` at prices that cross `limit` for an
/// incoming order of `side`.
pub open spec fn crossing_depth(levels: Seq<PriceLevel>, side: OrderSide, limit: Price) -> int
    decreases levels.len(),
{
    if levels.len() == 0 {
        0
    } else {
        crossing_depth(levels.drop_last(), side, limit) + if crosses(side, limit, levels.last().price) {
            levels.last().total_quantity as int
        } else {
            0
        }
    }
}

proof fn lemma_depth_prefix(levels: Seq<PriceLevel>, side: OrderSide, limit: Price, i: int)
    requires
        0 <= i <= levels.len(),
    ensures
        crossing_depth(levels.take(i), side, limit) <= crossing_depth(levels, side, limit),
        crossing_depth(levels.take(i), side, limit) >= 0,
    decreases levels.len() - i,
{
    if i < levels.len() {
        lemma_depth_prefix(levels, side, limit, i + 1);
        assert(levels.take(i + 1).drop_last() =~= levels.take(i));
        lemma_depth_nonneg(levels.take(i), side, limit);
    } else {
        assert(levels.take(i) =~= levels);
        lemma_depth_nonneg(levels, side, limit);
    }
}

proof fn lemma_depth_nonneg(levels: Seq<PriceLevel>, side: OrderSide, limit: Price)
    ensures
        crossing_depth(levels, side, limit) >= 0,
    decreases levels.len(),
{
    if levels.len() > 0 {
        lemma_depth_nonneg(levels.drop_last(), side, limit);
    }
}

/// Whether an order of `order_type` takes part in matching on arrival.
pub open spec fn is_stop(t: OrderType) -> bool {
    t is StopLoss || t is TakeProfit
}

/// The limit price that an order is matched at: its own price, or for a
/// market order the farthest price on the opposite side.
pub open spec fn effective_limit(st: &OrderBookState, side: OrderSide, order_type: OrderType, price: Price) -> Price {
    if order_type == OrderType::Market {
        opposite(st, side).last().price
    } else {
        price
    }
}

/// What an order of `side` for `quantity` at limit `limit` locks.
pub open spec fn lock_amount(side: OrderSide, limit: Price, quantity: Quantity) -> int {
    if side == OrderSide::Buy {
        quote_cost(limit as int, quantity as int)
    } else {
        quantity as int
    }
}

impl OrderBookContract {
    /// What `place_order` returns.
    pub open spec fn place_outcome(
        &self,
        caller: Account,
        side: OrderSide,
        order_type: OrderType,
        price: Price,
        quantity: Quantity,
        tif: TimeInForce,
    ) -> Result<OrderId, OrderBookError> {
        let st = self.state;
        let cfg = st.config;
        let opp = opposite(&st, side);
        let limit = effective_limit(&st, side, order_type, price);
        let asset = if side == OrderSide::Buy { st.quote() } else { st.base() };
        if !cfg.is_active {
            Err(OrderBookError::MarketClosed)
        } else if quantity == 0 || quantity < cfg.min_order_size {
            Err(OrderBookError::BelowMinimumSize { size: quantity, minimum: cfg.min_order_size })
        } else if quantity > cfg.max_order_size {
            Err(OrderBookError::AboveMaximumSize { size: quantity, maximum: cfg.max_order_size })
        } else if order_type != OrderType::Market && price == 0 {
            Err(OrderBookError::InvalidOrder { reason: InvalidOrderReason::ZeroPrice })
        } else if order_type != OrderType::Market && price % cfg.tick_size != 0 {
            Err(OrderBookError::InvalidTickSize)
        } else if order_type == OrderType::Market && opp.len() == 0 {
            Err(OrderBookError::InvalidOrder { reason: InvalidOrderReason::NoLiquidity })
        } else if !is_stop(order_type) && tif == TimeInForce::PostOnly && opp.len() > 0 && crosses(side, limit, opp[0].price) {
            Err(OrderBookError::InvalidOrder { reason: InvalidOrderReason::WouldTakeLiquidity })
        } else if !is_stop(order_type) && tif == TimeInForce::FOK && crossing_depth(opp, side, limit) < quantity {
            Err(OrderBookError::InvalidOrder { reason: InvalidOrderReason::CannotFillInFull })
        } else if st.ledger.free(caller, asset) < lock_amount(side, limit, quantity) {
            Err(OrderBookError::InsufficientBalance {
                required: lock_amount(side, limit, quantity) as u128,
                available: st.ledger.free(caller, asset) as u128,
            })
        } else {
            Ok(st.next_order_id)
        }
    }

    /// Whether the best opposite price crosses `limit` for an order of `side`.
    fn crossing(&self, side: OrderSide, limit: Price) -> (r: bool)
        ensures
            r == (opposite(&self.state, side).len() > 0 && crosses(side, limit, opposite(&self.state, side)[0].price)),
    {
        if side == OrderSide::Buy {
            self.state.asks.len() > 0 && crosses_exec(side, limit, self.state.asks[0].price)
        } else {
            self.state.bids.len() > 0 && crosses_exec(side, limit, self.state.bids[0].price)
        }
    }

    /// Whether the opposite side holds at least `quantity` at prices crossing `limit`.
    fn depth_reaches(&self, side: OrderSide, limit: Price, quantity: Quantity) -> (r: bool)
        ensures
            r == (crossing_depth(opposite(&self.state, side), side, limit) >= quantity),
    {
        let levels = if side == OrderSide::Buy { &self.state.asks } else { &self.state.bids };
        let ghost ls = levels@;
        let mut acc: u128 = 0;
        let mut i: usize = 0;
        while i < levels.len() && acc < quantity as u128
            invariant
                ls == levels@,
                ls == opposite(&self.state, side),
                i <= ls.len(),
                acc == crossing_depth(ls.take(i as int), side, limit) || (acc == u128::MAX
                    && crossing_depth(ls.take(i as int), side, limit) >= u128::MAX),
            decreases ls.len() - i,
        {
            proof {
                assert(ls.take(i + 1).drop_last() =~= ls.take(i as int));
                assert(ls.take(i + 1).last() == ls[i as int]);
            }
            if crosses_exec(side, limit, levels[i].price) {
                acc = acc.saturating_add(levels[i].total_quantity);
            }
            i = i + 1;
        }
        proof {
            lemma_depth_prefix(ls, side, limit, i as int);
            if i == ls.len() {
                assert(ls.take(i as int) =~= ls);
            }
        }
        acc >= quantity as u128
    }
}

/// The order that `place_order` creates.
pub open spec fn new_order(
    id: OrderId,
    caller: Account,
    side: OrderSide,
    order_type: OrderType,
    limit: Price,
    quantity: Quantity,
    tif: TimeInForce,
    now: Timestamp,
    expires_at: Option<Timestamp>,
    amount: Amount,
) -> Order {
    Order {
        id,
        user: caller,
        side,
        order_type,
        price: limit,
        quantity,
        filled_quantity: 0,
        status: OrderStatus::Pending,
        time_in_force: tif,
        timestamp: now,
        expires_at,
        reserved: amount,
    }
}

impl OrderBookContract {
    /// Locks `amount` of the caller's funds and records a new pending order
    /// that rests nowhere yet.
    fn open_order(
        &mut self,
        caller: Account,
        now: Timestamp,
        side: OrderSide,
        order_type: OrderType,
        limit: Price,
        quantity: Quantity,
        tif: TimeInForce,
        expires_at: Option<Timestamp>,
        amount: Amount,
    ) -> (k: usize)
        requires
            old(self).state.wf(),
            quantity > 0,
            amount == lock_amount(side, limit, quantity),
            old(self).state.ledger.free(caller, lock_asset(new_order(0, caller, side, order_type, limit, quantity, tif, now, expires_at, amount), old(self).state.base(), old(self).state.quote())) >= amount,
            old(self).state.orders@.len() + 1 < u64::MAX,
        ensures
            final(self).state.wf(),
            k == old(self).state.orders@.len(),
            final(self).state.orders@ == old(self).state.orders@.push(new_order((k + 1) as u64, caller, side, order_type, limit, quantity, tif, now, expires_at, amount)),
            final(self).state.ledger.moved(&old(self).state.ledger, lock_asset(new_order(0, caller, side, order_type, limit, quantity, tif, now, expires_at, amount), old(self).state.base(), old(self).state.quote()),
                Holder::Free(caller), -amount, Holder::Locked(caller), amount as int),
            final(self).state.ledger.same_flows(&old(self).state.ledger),
            absent(final(self).state.bids@, k + 1),
            absent(final(self).state.asks@, k + 1),
            final(self).state.bids@ == old(self).state.bids@,
            final(self).state.asks@ == old(self).state.asks@,
            final(self).state.trades@ == old(self).state.trades@,
            final(self).state.config == old(self).state.config,
            final(self).state.best_bid == old(self).state.best_bid,
            final(self).state.best_ask == old(self).state.best_ask,
    {
        let ghost prev = self.state;
        let asset = if side == OrderSide::Buy { self.state.config.quote_asset.clone() } else { self.state.config.base_asset.clone() };
        let r = self.state.ledger.lock(caller, &asset, amount);
        proof {
            assert(r is Ok);
        }
        let k = self.state.orders.len();
        let id = self.state.next_order_id;
        let o = Order {
            id,
            user: caller,
            side,
            order_type,
            price: limit,
            quantity,
            filled_quantity: 0,
            status: OrderStatus::Pending,
            time_in_force: tif,
            timestamp: now,
            expires_at,
            reserved: amount,
        };
        self.state.orders.push(o);
        self.state.next_order_id = id + 1;
        proof {
            let st = self.state;
            assert(o == new_order((k + 1) as u64, caller, side, order_type, limit, quantity, tif, now, expires_at, amount));
            assert forall|i: int| 0 <= i < st.orders@.len() implies order_ok(#[trigger] st.orders@[i]) && st.orders@[i].id == i + 1 by {
                if i < k {
                    assert(st.orders@[i] == prev.orders@[i]);
                }
            }
            assert forall|u: Account, a: Seq<char>| #[trigger] st.ledger.balance(Holder::Locked(u), a) == st.reserved_total(u, a) by {
                assert(lock_terms(st.orders@, u, a, st.base(), st.quote()) =~= lock_terms(prev.orders@, u, a, st.base(), st.quote()).push(lock_term(o, u, a, st.base(), st.quote())));
                lemma_sum_push(lock_terms(prev.orders@, u, a, st.base(), st.quote()), lock_term(o, u, a, st.base(), st.quote()));
                assert(prev.ledger.balance(Holder::Locked(u), a) == prev.reserved_total(u, a));
            }
            lemma_levels_push(prev.bids@, OrderSide::Buy, prev.orders@, o);
            lemma_levels_push(prev.asks@, OrderSide::Sell, prev.orders@, o);
            assert forall|l: int, i: int| 0 <= l < st.bids@.len() && 0 <= i < st.bids@[l].orders@.len() implies #[trigger] st.bids@[l].orders@[i] != k + 1 by {
                assert(st.bids@[l].orders@[i] <= prev.orders@.len());
            }
            assert forall|l: int, i: int| 0 <= l < st.asks@.len() && 0 <= i < st.asks@[l].orders@.len() implies #[trigger] st.asks@[l].orders@[i] != k + 1 by {
                assert(st.asks@[l].orders@[i] <= prev.orders@.len());
            }
        }
        k
    }
}

impl OrderBookContract {
    /// Puts live order `k`, which rests nowhere, into the book on its side.
    fn rest_order(&mut self, k: usize)
        requires
            old(self).state.wf(),
            k < old(self).state.orders@.len(),
            is_live(old(self).state.orders@[k as int]),
            absent(old(self).state.bids@, k + 1),
            absent(old(self).state.asks@, k + 1),
        ensures
            final(self).state.wf(),
            ({
                let o = old(self).state.orders@[k as int];
                let o2 = final(self).state.orders@[k as int];
                &&& final(self).state.orders@ == old(self).state.orders@.update(k as int, o2)
                &&& o2 == (Order { status: if o.status == OrderStatus::Pending { OrderStatus::Open } else { o.status }, ..o })
                &&& rests_in(own_side(&final(self).state, o.side), k + 1)
                &&& others_rest_alike(own_side(&old(self).state, o.side), own_side(&final(self).state, o.side), k + 1)
                &&& opposite(&final(self).state, o.side) == opposite(&old(self).state, o.side)
            }),
            final(self).state.ledger == old(self).state.ledger,
            final(self).state.trades@ == old(self).state.trades@,
            final(self).state.config == old(self).state.config,
            final(self).state.next_order_id == old(self).state.next_order_id,
            final(self).state.market_stats.last_price == old(self).state.market_stats.last_price,
    {
        let ghost prev = self.state;
        let o = self.state.orders[k];
        let o2 = Order { status: if o.status == OrderStatus::Pending { OrderStatus::Open } else { o.status }, ..o };
        self.state.orders.set(k, o2);
        proof {
            let st = self.state;
            assert(st.orders@ =~= prev.orders@.update(k as int, o2));
            assert(order_ok(prev.orders@[k as int]));
            lemma_levels_same_rest(prev.bids@, OrderSide::Buy, prev.orders@, k as int, o2);
            lemma_levels_same_rest(prev.asks@, OrderSide::Sell, prev.orders@, k as int, o2);
            assert forall|i: int| 0 <= i < st.orders@.len() implies order_ok(#[trigger] st.orders@[i]) && st.orders@[i].id == i + 1 by {
                if i != k {
                    assert(st.orders@[i] == prev.orders@[i]);
                }
            }
            assert forall|u: Account, a: Seq<char>| #[trigger] st.ledger.balance(Holder::Locked(u), a) == st.reserved_total(u, a) by {
                lemma_lock_terms_update(prev.orders@, k as int, o2, u, a, prev.base(), prev.quote());
                assert(prev.ledger.balance(Holder::Locked(u), a) == prev.reserved_total(u, a));
            }
        }
        let id = o.id;
        proof {
            assert(id == k + 1);
            assert forall|i: int| 0 <= i < self.state.orders@.len() implies (#[trigger] self.state.orders@[i]).filled_quantity <= self.state.orders@[i].quantity by {
                assert(order_ok(self.state.orders@[i]));
            }
        }
        if o.side == OrderSide::Buy {
            insert_resting(&mut self.state.bids, OrderSide::Buy, &self.state.orders, id);
        } else {
            insert_resting(&mut self.state.asks, OrderSide::Sell, &self.state.orders, id);
        }
        self.refresh_best();
    }

    /// `self` is `prev` after order `id` of `caller` was placed at `now` and matched.
    pub open spec fn order_placed(&self, prev: &Self, id: OrderId, caller: Account, now: Timestamp, side: OrderSide, order_type: OrderType, price: Price, quantity: Quantity, time_in_force: TimeInForce, expires_at: Option<Timestamp>) -> bool {
        let st0 = prev.state;
        let st = self.state;
        let o = st.get(id as int);
        let limit = effective_limit(&st0, side, order_type, price);
        let asset = if side == OrderSide::Buy { st0.quote() } else { st0.base() };
        let amount = lock_amount(side, limit, quantity);
        &&& st.orders@.len() == st0.orders@.len() + 1
        &&& id == st0.orders@.len() + 1
        &&& same_order_terms(new_order(id, caller, side, order_type, limit, quantity, time_in_force, now, expires_at, amount as u128), o)
        &&& st.ledger.same_flows(&st0.ledger)
        &&& st.config == st0.config
        &&& forall|i: int| 0 <= i < st0.orders@.len() && !is_live(st0.orders@[i]) ==> #[trigger] st.orders@[i] == st0.orders@[i]
        &&& st.trades@.len() >= st0.trades@.len()
        &&& st.trades@.take(st0.trades@.len() as int) == st0.trades@
        // every new trade is this order's, against a resting order on the other
        // side, at that order's price, which crossed the limit
        &&& forall|j: int| st0.trades@.len() <= j < st.trades@.len() ==> (#[trigger] st.trades@[j]).taker_order_id == id
            && crosses(side, limit, st.trades@[j].price) && maker_ok(&st, st.trades@[j], side)
        // the order filled exactly what its trades add up to
        &&& o.filled_quantity == traded(st.trades@, st0.trades@.len() as int)
        &&& st.trades@.len() > st0.trades@.len() ==> st.market_stats.last_price == st.trades@.last().price
        // an order that is still live rests in the book, uncrossed, or is a parked stop order
        &&& is_live(o) ==> (is_stop(order_type) && !rests_in(st.bids@, id as int) && !rests_in(st.asks@, id as int))
            || (rests_in(own_side(&st, side), id as int) && !(opposite(&st, side).len() > 0 && crosses(side, limit, opposite(&st, side)[0].price)))
        // immediate-or-cancel, fill-or-kill and market orders never rest
        &&& (time_in_force == TimeInForce::IOC || time_in_force == TimeInForce::FOK || order_type == OrderType::Market) && !is_stop(order_type) ==> !is_live(o)
        // a limit order that does not cross at once rests whole, and only its funds get locked
        &&& (order_type == OrderType::Limit && time_in_force != TimeInForce::IOC && time_in_force != TimeInForce::FOK
            && !(opposite(&st0, side).len() > 0 && crosses(side, price, opposite(&st0, side)[0].price))) ==> {
            &&& o == (Order { status: OrderStatus::Open, ..new_order(id, caller, side, order_type, price, quantity, time_in_force, now, expires_at, amount as u128) })
            &&& st.orders@ == st0.orders@.push(o)
            &&& st.trades@ == st0.trades@
            &&& st.ledger.moved(&st0.ledger, asset, Holder::Free(caller), -amount, Holder::Locked(caller), amount)
            &&& rests_in(own_side(&st, side), id as int)
            &&& others_rest_alike(own_side(&st0, side), own_side(&st, side), id as int)
            &&& opposite(&st, side) == opposite(&st0, side)
        }
    }

    /// Places an order. It is checked, its funds are locked, and it is matched
    /// against the opposite side, oldest order of the best level first, at the
    /// resting orders' prices, while the prices cross. What is left then rests
    /// in the book (good-till-cancelled and post-only orders) or is cancelled
    /// and unlocked (immediate-or-cancel, fill-or-kill and market orders). A
    /// post-only order that would match, and a fill-or-kill order that the book
    /// cannot fill in full, are rejected with no change. Stop orders are parked
    /// until their trigger. Returns the new order's id.
    #[verifier::rlimit(100)]
    pub fn place_order(
        &mut self,
        caller: Account,
        now: Timestamp,
        side: OrderSide,
        order_type: OrderType,
        price: Price,
        quantity: Quantity,
        time_in_force: TimeInForce,
        expires_at: Option<Timestamp>,
    ) -> (r: Result<OrderId, OrderBookError>)
        requires
            old(self).state.wf(),
            old(self).state.orders@.len() + 1 < u64::MAX,
        ensures
            final(self).state.wf(),
            r == old(self).place_outcome(caller, side, order_type, price, quantity, time_in_force),
            r is Err ==> final(self).state.unchanged_from(&old(self).state),
            final(self).state.config == old(self).state.config,
            r is Ok ==> final(self).order_placed(old(self), r->Ok_0, caller, now, side, order_type, price, quantity, time_in_force, expires_at),
    {
        let cfg = &self.state.config;
        if !cfg.is_active {
            return Err(OrderBookError::MarketClosed);
        }
        if quantity == 0 || quantity < cfg.min_order_size {
            return Err(OrderBookError::BelowMinimumSize { size: quantity, minimum: cfg.min_order_size });
        }
        if quantity > cfg.max_order_size {
            return Err(OrderBookError::AboveMaximumSize { size: quantity, maximum: cfg.max_order_size });
        }
        let is_market = order_type == OrderType::Market;
        let stop = match order_type {
            OrderType::StopLoss { .. } => true,
            OrderType::TakeProfit { .. } => true,
            _ => false,
        };
        if !is_market && price == 0 {
            return Err(OrderBookError::InvalidOrder { reason: InvalidOrderReason::ZeroPrice });
        }
        if !is_market && price % cfg.tick_size != 0 {
            return Err(OrderBookError::InvalidTickSize);
        }
        let opp_len = if side == OrderSide::Buy { self.state.asks.len() } else { self.state.bids.len() };
        if is_market && opp_len == 0 {
            return Err(OrderBookError::InvalidOrder { reason: InvalidOrderReason::NoLiquidity });
        }
        let limit = if is_market {
            if side == OrderSide::Buy {
                self.state.asks[self.state.asks.len() - 1].price
            } else {
                self.state.bids[self.state.bids.len() - 1].price
            }
        } else {
            price
        };
        if !stop && time_in_force == TimeInForce::PostOnly && self.crossing(side, limit) {
            return Err(OrderBookError::InvalidOrder { reason: InvalidOrderReason::WouldTakeLiquidity });
        }
        if !stop && time_in_force == TimeInForce::FOK && !self.depth_reaches(side, limit, quantity) {
            return Err(OrderBookError::InvalidOrder { reason: InvalidOrderReason::CannotFillInFull });
        }
        proof {
            assert((limit as int) * (quantity as int) <= u64::MAX as int * u64::MAX as int) by (nonlinear_arith)
                requires limit <= u64::MAX, quantity <= u64::MAX;
            assert(u64::MAX as int * u64::MAX as int <= u128::MAX);
        }
        let amount: Amount = if side == OrderSide::Buy {
            (limit as u128 * quantity as u128) / PRICE_SCALE as u128
        } else {
            quantity as u128
        };
        let asset = if side == OrderSide::Buy { &self.state.config.quote_asset } else { &self.state.config.base_asset };
        let available = self.state.ledger.free_balance(caller, asset);
        if available < amount {
            return Err(OrderBookError::InsufficientBalance { required: amount, available });
        }
        let ghost st0 = self.state;
        let k = self.open_order(caller, now, side, order_type, limit, quantity, time_in_force, expires_at, amount);
        let id = self.state.next_order_id - 1;
        if stop {
            self.state.stop_orders.push(id);
            proof {
                assert(self.state.trades@.take(st0.trades@.len() as int) =~= st0.trades@);
            }
            return Ok(id);
        }
        let ghost st1 = self.state;
        proof {
            assert forall|i: int| 0 <= i < k && !is_live(st0.orders@[i]) implies #[trigger] st1.orders@[i] == st0.orders@[i] by {}
        }
        let init_cross = self.crossing(side, limit);
        while self.state.orders[k].is_active() && self.crossing(side, limit)
            invariant
                !init_cross ==> self.state.orders@ == st1.orders@ && self.state.ledger == st1.ledger
                    && self.state.trades@ == st1.trades@ && self.state.bids@ == st1.bids@
                    && self.state.asks@ == st1.asks@,
                init_cross == (opposite(&st1, side).len() > 0 && crosses(side, limit, opposite(&st1, side)[0].price)),
                self.state.wf(),
                k < self.state.orders@.len(),
                self.state.orders@.len() == st0.orders@.len() + 1,
                k == st0.orders@.len(),
                absent(self.state.bids@, k + 1),
                absent(self.state.asks@, k + 1),
                same_order_terms(st1.orders@[k as int], self.state.orders@[k as int]),
                self.state.orders@[k as int].side == side,
                self.state.orders@[k as int].price == limit,
                own_side(&self.state, side) == own_side(&st1, side),
                self.state.ledger.same_flows(&st0.ledger),
                self.state.trades@.len() >= st0.trades@.len(),
                self.state.trades@.take(st0.trades@.len() as int) == st0.trades@,
                forall|j: int| st0.trades@.len() <= j < self.state.trades@.len() ==> (#[trigger] self.state.trades@[j]).taker_order_id == k + 1
                    && crosses(side, limit, self.state.trades@[j].price) && maker_ok(&self.state, self.state.trades@[j], side),
                self.state.orders@[k as int].filled_quantity == traded(self.state.trades@, st0.trades@.len() as int),
                self.state.trades@.len() > st0.trades@.len() ==> self.state.market_stats.last_price == self.state.trades@.last().price,
                self.state.config == st0.config,
                self.state.next_order_id == st1.next_order_id,
                forall|i: int| 0 <= i < k && !is_live(st0.orders@[i]) ==> #[trigger] self.state.orders@[i] == st0.orders@[i],
            decreases self.state.orders@[k as int].quantity - self.state.orders@[k as int].filled_quantity,
        {
            let ghost before = self.state;
            proof {
                assert(order_ok(self.state.orders@[k as int]));
            }
            self.fill_one(k, now);
            proof {
                let st = self.state;
                assert(st.trades@.take(st0.trades@.len() as int) =~= before.trades@.take(st0.trades@.len() as int));
                assert(before.orders@[k as int].id == k + 1);
                assert forall|j: int| st0.trades@.len() <= j < st.trades@.len() implies (#[trigger] st.trades@[j]).taker_order_id == k + 1
                    && crosses(side, limit, st.trades@[j].price) && maker_ok(&st, st.trades@[j], side) by {
                    if j < before.trades@.len() {
                        assert(st.trades@[j] == before.trades@[j]);
                        let m = st.trades@[j].maker_order_id as int;
                        assert(maker_ok(&before, before.trades@[j], side));
                        assert(same_order_terms(before.orders@[m - 1], st.orders@[m - 1]));
                    }
                }
                assert(st.trades@.drop_last() == before.trades@);
                assert(traded(st.trades@, st0.trades@.len() as int) == traded(before.trades@, st0.trades@.len() as int) + st.trades@.last().quantity);
                assert forall|b: Seq<char>| #[trigger] st.ledger.deposits(b) == st0.ledger.deposits(b) by {
                    assert(before.ledger.deposits(b) == st0.ledger.deposits(b));
                }
                assert forall|b: Seq<char>| #[trigger] st.ledger.withdrawals(b) == st0.ledger.withdrawals(b) by {
                    assert(before.ledger.withdrawals(b) == st0.ledger.withdrawals(b));
                }
            }
        }
        let ghost st2 = self.state;
        if self.state.orders[k].is_active() {
            if is_market || time_in_force == TimeInForce::IOC || time_in_force == TimeInForce::FOK {
                self.close_order(k, OrderStatus::Cancelled);
            } else {
                self.rest_order(k);
                proof {
                    if !init_cross {
                        assert(self.state.orders@ =~= st0.orders@.push(self.state.orders@[k as int]));
                    }
                }
            }
        }
        Ok(id)
    }
}

impl OrderBookContract {
    /// What `modify_order` returns: the errors of `cancel_order`, then those
    /// of `place_order` for the new price and quantity, judged as if the old
    /// order's lock were already free again.
    pub open spec fn modify_outcome(&self, caller: Account, id: OrderId, price: Price, quantity: Quantity) -> Result<OrderId, OrderBookError> {
        let st = self.state;
        let cfg = st.config;
        let o = st.get(id as int);
        let opp = opposite(&st, o.side);
        let asset = if o.side == OrderSide::Buy { st.quote() } else { st.base() };
        let order_type = o.order_type;
        let tif = o.time_in_force;
        let limit = effective_limit(&st, o.side, order_type, price);
        if self.cancel_outcome(caller, id) is Err {
            Err(self.cancel_outcome(caller, id)->Err_0)
        } else if !cfg.is_active {
            Err(OrderBookError::MarketClosed)
        } else if quantity == 0 || quantity < cfg.min_order_size {
            Err(OrderBookError::BelowMinimumSize { size: quantity, minimum: cfg.min_order_size })
        } else if quantity > cfg.max_order_size {
            Err(OrderBookError::AboveMaximumSize { size: quantity, maximum: cfg.max_order_size })
        } else if order_type != OrderType::Market && price == 0 {
            Err(OrderBookError::InvalidOrder { reason: InvalidOrderReason::ZeroPrice })
        } else if order_type != OrderType::Market && price % cfg.tick_size != 0 {
            Err(OrderBookError::InvalidTickSize)
        } else if order_type == OrderType::Market && opp.len() == 0 {
            Err(OrderBookError::InvalidOrder { reason: InvalidOrderReason::NoLiquidity })
        } else if !is_stop(order_type) && tif == TimeInForce::PostOnly && opp.len() > 0 && crosses(o.side, limit, opp[0].price) {
            Err(OrderBookError::InvalidOrder { reason: InvalidOrderReason::WouldTakeLiquidity })
        } else if !is_stop(order_type) && tif == TimeInForce::FOK && crossing_depth(opp, o.side, limit) < quantity {
            Err(OrderBookError::InvalidOrder { reason: InvalidOrderReason::CannotFillInFull })
        } else if st.ledger.free(caller, asset) + o.reserved < lock_amount(o.side, limit, quantity) {
            Err(OrderBookError::InsufficientBalance {
                required: lock_amount(o.side, limit, quantity) as u128,
                available: (st.ledger.free(caller, asset) + o.reserved) as u128,
            })
        } else {
            Ok(st.next_order_id)
        }
    }

    /// `self` is `prev` after order `id` of `caller` was cancelled and order
    /// `new_id` placed in its stead, on the same side, of the same kind, at
    /// `price` (its limit, unless it is a market order) and for `quantity`.
    pub open spec fn order_replaced(&self, prev: &Self, caller: Account, id: OrderId, new_id: OrderId, price: Price, quantity: Quantity) -> bool {
        let o = prev.state.get(id as int);
        let o2 = self.state.get(new_id as int);
        &&& new_id == prev.state.next_order_id
        &&& self.state.orders@.len() == prev.state.orders@.len() + 1
        &&& self.state.get(id as int) == (Order { status: OrderStatus::Cancelled, reserved: 0, ..o })
        &&& o2.user == caller
        &&& o2.side == o.side
        &&& o2.order_type == o.order_type
        &&& o2.time_in_force == o.time_in_force
        &&& o2.quantity == quantity
        &&& o.order_type != OrderType::Market ==> o2.price == price
        &&& self.state.ledger.same_flows(&prev.state.ledger)
        &&& self.state.config == prev.state.config
    }

    /// Replaces a live order of the caller by one on the same side, of the
    /// same kind, at `new_price` and for `new_quantity` (`None` keeps the old
    /// price, or the old order's remaining quantity). The old order is
    /// cancelled and the new one placed and matched; it gets a new id and the
    /// back of the queue. Nothing changes if either step would fail.
    #[verifier::rlimit(100)]
    pub fn modify_order(&mut self, caller: Account, now: Timestamp, id: OrderId, new_price: Option<Price>, new_quantity: Option<Quantity>) -> (r: Result<OrderId, OrderBookError>)
        requires
            old(self).state.wf(),
            old(self).state.orders@.len() + 1 < u64::MAX,
        ensures
            final(self).state.wf(),
            ({
                let o = old(self).state.get(id as int);
                let price = match new_price { Some(p) => p, None => o.price };
                let quantity = match new_quantity { Some(q) => q, None => (o.quantity - o.filled_quantity) as u64 };
                r == old(self).modify_outcome(caller, id, price, quantity)
            }),
            r is Err ==> final(self).state.unchanged_from(&old(self).state),
            r is Ok ==> ({
                let o = old(self).state.get(id as int);
                let price = match new_price { Some(p) => p, None => o.price };
                let quantity = match new_quantity { Some(q) => q, None => (o.quantity - o.filled_quantity) as u64 };
                final(self).order_replaced(old(self), caller, id, r->Ok_0, price, quantity)
            }),
    {
        if id == 0 || id >= self.state.next_order_id {
            return Err(OrderBookError::OrderNotFound { order_id: id });
        }
        let k = slot(id, self.state.orders.len());
        let o = self.state.orders[k];
        if o.user != caller {
            return Err(OrderBookError::Unauthorized);
        }
        if !o.is_active() {
            return Err(OrderBookError::OrderNotModifiable { status: o.status });
        }
        proof {
            assert(order_ok(self.state.orders@[k as int]));
        }
        let price = match new_price { Some(p) => p, None => o.price };
        let quantity = match new_quantity { Some(q) => q, None => o.quantity - o.filled_quantity };
        let side = o.side;
        let order_type = o.order_type;
        let tif = o.time_in_force;
        let cfg = &self.state.config;
        if !cfg.is_active {
            return Err(OrderBookError::MarketClosed);
        }
        if quantity == 0 || quantity < cfg.min_order_size {
            return Err(OrderBookError::BelowMinimumSize { size: quantity, minimum: cfg.min_order_size });
        }
        if quantity > cfg.max_order_size {
            return Err(OrderBookError::AboveMaximumSize { size: quantity, maximum: cfg.max_order_size });
        }
        let is_market = order_type == OrderType::Market;
        let stop = match order_type {
            OrderType::StopLoss { .. } => true,
            OrderType::TakeProfit { .. } => true,
            _ => false,
        };
        if !is_market && price == 0 {
            return Err(OrderBookError::InvalidOrder { reason: InvalidOrderReason::ZeroPrice });
        }
        if !is_market && price % cfg.tick_size != 0 {
            return Err(OrderBookError::InvalidTickSize);
        }
        let opp_len = if side == OrderSide::Buy { self.state.asks.len() } else { self.state.bids.len() };
        if is_market && opp_len == 0 {
            return Err(OrderBookError::InvalidOrder { reason: InvalidOrderReason::NoLiquidity });
        }
        let limit = if is_market {
            if side == OrderSide::Buy {
                self.state.asks[self.state.asks.len() - 1].price
            } else {
                self.state.bids[self.state.bids.len() - 1].price
            }
        } else {
            price
        };
        if !stop && tif == TimeInForce::PostOnly && self.crossing(side, limit) {
            return Err(OrderBookError::InvalidOrder { reason: InvalidOrderReason::WouldTakeLiquidity });
        }
        if !stop && tif == TimeInForce::FOK && !self.depth_reaches(side, limit, quantity) {
            return Err(OrderBookError::InvalidOrder { reason: InvalidOrderReason::CannotFillInFull });
        }
        proof {
            assert((limit as int) * (quantity as int) <= u64::MAX as int * u64::MAX as int) by (nonlinear_arith)
                requires limit <= u64::MAX, quantity <= u64::MAX;
            assert(u64::MAX as int * u64::MAX as int <= u128::MAX);
        }
        let amount: Amount = if side == OrderSide::Buy {
            (limit as u128 * quantity as u128) / PRICE_SCALE as u128
        } else {
            quantity as u128
        };
        let asset = if side == OrderSide::Buy { &self.state.config.quote_asset } else { &self.state.config.base_asset };
        let free = self.state.ledger.free_balance(caller, asset);
        proof {
            self.state.ledger.lemma_balance_bounds(Holder::Free(caller), asset@);
            lemma_reserved_covered(&self.state, k as int);
            self.state.ledger.lemma_balance_bounds(Holder::Locked(caller), asset@);
            self.state.ledger.lemma_supply(asset@);
        }
        let available = free.saturating_add(o.reserved);
        proof {
            assert(free + o.reserved <= u128::MAX) by {
                assert(self.state.ledger.free(caller, asset@) + self.state.ledger.locked(caller, asset@) <= self.state.ledger.supply(asset@)) by {
                    self.state.ledger.lemma_two_balances(Holder::Free(caller), Holder::Locked(caller), asset@);
                }
            }
        }
        if available < amount {
            return Err(OrderBookError::InsufficientBalance { required: amount, available });
        }
        let ghost st0 = self.state;
        let rc = self.cancel_order(caller, id);
        proof {
            assert(rc is Ok);
            let st1 = self.state;
            assert(st1.ledger.free(caller, asset@) == st0.ledger.free(caller, asset@) + o.reserved);
            assert(opposite(&st1, side) == opposite(&st0, side));
            assert(st1.config == st0.config);
            assert(st1.orders@.len() == st0.orders@.len());
        }
        let rp = self.place_order(caller, now, side, order_type, price, quantity, tif, o.expires_at);
        proof {
            assert(rp is Ok);
        }
        rp
    }
}

/// A request to the order book.
#[derive(Debug)]
pub enum Operation {
    PlaceOrder {
        side: OrderSide,
        order_type: OrderType,
        price: Price,
        quantity: Quantity,
        time_in_force: TimeInForce,
        expires_at: Option<Timestamp>,
    },
    CancelOrder { order_id: OrderId },
    ModifyOrder { order_id: OrderId, new_price: Option<Price>, new_quantity: Option<Quantity> },
    Deposit { asset: String, amount: Amount },
    Withdraw { asset: String, amount: Amount },
    UpdateConfig { min_order_size: Option<Quantity>, max_order_size: Option<Quantity>, tick_size: Option<Price> },
}

/// A message between the order book and other chains.
#[derive(Debug)]
pub enum Message {
    /// Asks the settlement engine to settle a trade.
    SettlementRequest {
        trade_id: TradeId,
        maker: Account,
        taker: Account,
        maker_asset: String,
        taker_asset: String,
        maker_amount: Amount,
        taker_amount: Amount,
    },
    SettlementConfirmation { trade_id: TradeId, success: bool },
    CrossChainOrder { order: Order, source_chain: u64 },
    PriceUpdate { best_bid: Price, best_ask: Price, last_price: Price },
}

/// `r` without its success value.
pub open spec fn unit_of<T>(r: Result<T, OrderBookError>) -> Result<(), OrderBookError> {
    match r {
        Ok(_) => Ok(()),
        Err(e) => Err(e),
    }
}

impl OrderBookContract {
    /// Carries out one request from `caller` at time `now`.
    pub fn execute_operation(&mut self, caller: Account, now: Timestamp, operation: Operation) -> (r: Result<(), OrderBookError>)
        requires
            old(self).state.wf(),
            old(self).state.orders@.len() + 1 < u64::MAX,
        ensures
            final(self).state.wf(),
            match operation {
                Operation::PlaceOrder { side, order_type, price, quantity, time_in_force, expires_at } => {
                    &&& r == unit_of(old(self).place_outcome(caller, side, order_type, price, quantity, time_in_force))
                    &&& r is Ok ==> final(self).order_placed(old(self), old(self).state.next_order_id, caller, now, side, order_type,
                        price, quantity, time_in_force, expires_at)
                },
                Operation::CancelOrder { order_id } => {
                    &&& r == old(self).cancel_outcome(caller, order_id)
                    &&& r is Ok ==> final(self).order_cancelled(old(self), caller, order_id)
                },
                Operation::ModifyOrder { order_id, new_price, new_quantity } => {
                    let o = old(self).state.get(order_id as int);
                    let price = match new_price { Some(p) => p, None => o.price };
                    let quantity = match new_quantity { Some(q) => q, None => (o.quantity - o.filled_quantity) as u64 };
                    &&& r == unit_of(old(self).modify_outcome(caller, order_id, price, quantity))
                    &&& r is Ok ==> final(self).order_replaced(old(self), caller, order_id, old(self).state.next_order_id, price, quantity)
                },
                Operation::Deposit { asset, amount } => {
                    &&& r is Err <==> old(self).state.ledger.supply(asset@) + amount > u128::MAX
                    &&& r is Ok ==> final(self).deposited(old(self), caller, asset@, amount)
                },
                Operation::Withdraw { asset, amount } => {
                    &&& r is Err <==> old(self).state.ledger.free(caller, asset@) < amount
                    &&& r is Ok ==> final(self).withdrew(old(self), caller, asset@, amount)
                },
                Operation::UpdateConfig { min_order_size, max_order_size, tick_size } => {
                    &&& r is Err <==> tick_size == Some(0u64)
                    &&& r is Ok ==> final(self).config_updated(old(self), min_order_size, max_order_size, tick_size)
                },
            },
            r is Err ==> final(self).state.orders@ == old(self).state.orders@
                && final(self).state.ledger == old(self).state.ledger,
    {
        match operation {
            Operation::PlaceOrder { side, order_type, price, quantity, time_in_force, expires_at } => {
                match self.place_order(caller, now, side, order_type, price, quantity, time_in_force, expires_at) {
                    Ok(_) => Ok(()),
                    Err(e) => Err(e),
                }
            },
            Operation::CancelOrder { order_id } => self.cancel_order(caller, order_id),
            Operation::ModifyOrder { order_id, new_price, new_quantity } => {
                match self.modify_order(caller, now, order_id, new_price, new_quantity) {
                    Ok(_) => Ok(()),
                    Err(e) => Err(e),
                }
            },
            Operation::Deposit { asset, amount } => self.deposit(caller, asset, amount),
            Operation::Withdraw { asset, amount } => self.withdraw(caller, asset, amount),
            Operation::UpdateConfig { min_order_size, max_order_size, tick_size } => self.update_config(min_order_size, max_order_size, tick_size),
        }
    }
}

/// Whether stop order `o` fires at last trade price `last`: a stop-loss sell
/// (take-profit buy) when the price falls to its trigger, a take-profit sell
/// (stop-loss buy) when it rises to it.
pub open spec fn triggered(o: Order, last: Price) -> bool {
    match o.order_type {
        OrderType::StopLoss { trigger_price } => if o.side == OrderSide::Sell {
            last <= trigger_price
        } else {
            last >= trigger_price
        },
        OrderType::TakeProfit { trigger_price } => if o.side == OrderSide::Sell {
            last >= trigger_price
        } else {
            last <= trigger_price
        },
        _ => false,
    }
}

/// Parked order `id` is live and its trigger is reached at `last`.
pub open spec fn fires(st: &OrderBookState, id: OrderId, last: Price) -> bool {
    &&& st.has(id as int)
    &&& is_live(st.get(id as int))
    &&& triggered(st.get(id as int), last)
}

/// Parked order `id` is live and still waits for its trigger at `last`.
pub open spec fn waits(st: &OrderBookState, id: OrderId, last: Price) -> bool {
    &&& st.has(id as int)
    &&& is_live(st.get(id as int))
    &&& !triggered(st.get(id as int), last)
}

/// The entries of `ids` that fire at `last`, in order.
pub open spec fn firing(ids: Seq<OrderId>, st: &OrderBookState, last: Price) -> Seq<OrderId>
    decreases ids.len(),
{
    if ids.len() == 0 {
        Seq::empty()
    } else if fires(st, ids.last(), last) {
        firing(ids.drop_last(), st, last).push(ids.last())
    } else {
        firing(ids.drop_last(), st, last)
    }
}

/// The entries of `ids` that keep waiting at `last`, in order.
pub open spec fn waiting(ids: Seq<OrderId>, st: &OrderBookState, last: Price) -> Seq<OrderId>
    decreases ids.len(),
{
    if ids.len() == 0 {
        Seq::empty()
    } else if waits(st, ids.last(), last) {
        waiting(ids.drop_last(), st, last).push(ids.last())
    } else {
        waiting(ids.drop_last(), st, last)
    }
}

/// Every entry of `ids` that fires is in `firing`, and every entry of
/// `firing` is an order of the book.
proof fn lemma_firing_members(ids: Seq<OrderId>, st: &OrderBookState, last: Price)
    ensures
        forall|m: int| 0 <= m < ids.len() && fires(st, #[trigger] ids[m], last) ==> exists|p: int|
            0 <= p < firing(ids, st, last).len() && firing(ids, st, last)[p] == ids[m],
        forall|p: int| 0 <= p < firing(ids, st, last).len() ==> fires(st, #[trigger] firing(ids, st, last)[p], last),
    decreases ids.len(),
{
    if ids.len() > 0 {
        let t = ids.drop_last();
        lemma_firing_members(t, st, last);
        let f = firing(t, st, last);
        let g = firing(ids, st, last);
        let lastf = fires(st, ids.last(), last);
        assert(g == if lastf { f.push(ids.last()) } else { f });
        assert forall|p: int| 0 <= p < f.len() implies #[trigger] g[p] == f[p] by {}
        assert forall|m: int| 0 <= m < ids.len() && fires(st, #[trigger] ids[m], last) implies exists|p: int|
            0 <= p < g.len() && g[p] == ids[m] by {
            if m < ids.len() - 1 {
                assert(t[m] == ids[m]);
                assert(fires(st, t[m], last));
                let p = choose|p: int| 0 <= p < f.len() && f[p] == t[m];
                assert(g[p] == f[p]);
            } else {
                assert(g[f.len() as int] == ids[m]);
            }
        }
        assert forall|p: int| 0 <= p < g.len() implies fires(st, #[trigger] g[p], last) by {
            if p < f.len() {
                assert(g[p] == f[p]);
                assert(fires(st, f[p], last));
            }
        }
    }
}

fn triggered_exec(o: &Order, last: Price) -> (r: bool)
    ensures
        r == triggered(*o, last),
{
    match o.order_type {
        OrderType::StopLoss { trigger_price } => if o.side == OrderSide::Sell {
            last <= trigger_price
        } else {
            last >= trigger_price
        },
        OrderType::TakeProfit { trigger_price } => if o.side == OrderSide::Sell {
            last >= trigger_price
        } else {
            last <= trigger_price
        },
        _ => false,
    }
}

impl OrderBookContract {
    /// Matches live order `k`, which rests nowhere, while the best opposite
    /// price crosses its price, then cancels what is left.
    fn match_and_close(&mut self, k: usize, now: Timestamp)
        requires
            old(self).state.wf(),
            k < old(self).state.orders@.len(),
            is_live(old(self).state.orders@[k as int]),
            absent(old(self).state.bids@, k + 1),
            absent(old(self).state.asks@, k + 1),
        ensures
            final(self).state.wf(),
            !is_live(final(self).state.orders@[k as int]),
            same_order_terms(old(self).state.orders@[k as int], final(self).state.orders@[k as int]),
            final(self).state.orders@.len() == old(self).state.orders@.len(),
            forall|i: int| 0 <= i < old(self).state.orders@.len() && i != k && !is_live(old(self).state.orders@[i])
                ==> #[trigger] final(self).state.orders@[i] == old(self).state.orders@[i],
            final(self).state.ledger.same_flows(&old(self).state.ledger),
            final(self).state.config == old(self).state.config,
            final(self).state.next_order_id == old(self).state.next_order_id,
            forall|i: int| 0 <= i < old(self).state.orders@.len() ==> same_order_terms(old(self).state.orders@[i], #[trigger] final(self).state.orders@[i]),
            // its trades: against resting orders of the other side, at their prices, crossing its price
            final(self).state.trades@.len() >= old(self).state.trades@.len(),
            final(self).state.trades@.take(old(self).state.trades@.len() as int) == old(self).state.trades@,
            forall|j: int| old(self).state.trades@.len() <= j < final(self).state.trades@.len() ==> {
                let o = old(self).state.orders@[k as int];
                &&& (#[trigger] final(self).state.trades@[j]).taker_order_id == k + 1
                &&& crosses(o.side, o.price, final(self).state.trades@[j].price)
                &&& maker_ok(&final(self).state, final(self).state.trades@[j], o.side)
            },
            final(self).state.orders@[k as int].filled_quantity == old(self).state.orders@[k as int].filled_quantity
                + traded(final(self).state.trades@, old(self).state.trades@.len() as int),
    {
        let ghost st0 = self.state;
        let side = self.state.orders[k].side;
        let limit = self.state.orders[k].price;
        while self.state.orders[k].is_active() && self.crossing(side, limit)
            invariant
                self.state.wf(),
                k < self.state.orders@.len(),
                self.state.orders@.len() == st0.orders@.len(),
                absent(self.state.bids@, k + 1),
                absent(self.state.asks@, k + 1),
                same_order_terms(st0.orders@[k as int], self.state.orders@[k as int]),
                self.state.orders@[k as int].side == side,
                self.state.orders@[k as int].price == limit,
                self.state.ledger.same_flows(&st0.ledger),
                self.state.config == st0.config,
                self.state.next_order_id == st0.next_order_id,
                forall|i: int| 0 <= i < st0.orders@.len() && i != k && !is_live(st0.orders@[i])
                    ==> #[trigger] self.state.orders@[i] == st0.orders@[i],
                forall|i: int| 0 <= i < st0.orders@.len() ==> same_order_terms(st0.orders@[i], #[trigger] self.state.orders@[i]),
                self.state.trades@.len() >= st0.trades@.len(),
                self.state.trades@.take(st0.trades@.len() as int) == st0.trades@,
                forall|j: int| st0.trades@.len() <= j < self.state.trades@.len() ==> {
                    &&& (#[trigger] self.state.trades@[j]).taker_order_id == k + 1
                    &&& crosses(side, limit, self.state.trades@[j].price)
                    &&& maker_ok(&self.state, self.state.trades@[j], side)
                },
                self.state.orders@[k as int].filled_quantity == st0.orders@[k as int].filled_quantity
                    + traded(self.state.trades@, st0.trades@.len() as int),
            decreases self.state.orders@[k as int].quantity - self.state.orders@[k as int].filled_quantity,
        {
            let ghost before = self.state;
            proof {
                assert(order_ok(self.state.orders@[k as int]));
            }
            self.fill_one(k, now);
            proof {
                let st = self.state;
                assert(st.trades@.take(st0.trades@.len() as int) =~= before.trades@.take(st0.trades@.len() as int));
                assert(before.orders@[k as int].id == k + 1);
                assert forall|i: int| 0 <= i < st0.orders@.len() implies same_order_terms(st0.orders@[i], #[trigger] st.orders@[i]) by {
                    assert(same_order_terms(st0.orders@[i], before.orders@[i]));
                    assert(same_order_terms(before.orders@[i], st.orders@[i]));
                }
                assert forall|j: int| st0.trades@.len() <= j < st.trades@.len() implies {
                    &&& (#[trigger] st.trades@[j]).taker_order_id == k + 1
                    &&& crosses(side, limit, st.trades@[j].price)
                    &&& maker_ok(&st, st.trades@[j], side)
                } by {
                    if j < before.trades@.len() {
                        assert(st.trades@[j] == before.trades@[j]);
                        let m = st.trades@[j].maker_order_id as int;
                        assert(maker_ok(&before, before.trades@[j], side));
                        assert(same_order_terms(before.orders@[m - 1], st.orders@[m - 1]));
                    }
                }
                assert(st.trades@.drop_last() == before.trades@);
                assert(traded(st.trades@, st0.trades@.len() as int) == traded(before.trades@, st0.trades@.len() as int) + st.trades@.last().quantity);
                assert forall|b: Seq<char>| #[trigger] st.ledger.deposits(b) == st0.ledger.deposits(b) by {
                    assert(before.ledger.deposits(b) == st0.ledger.deposits(b));
                }
                assert forall|b: Seq<char>| #[trigger] st.ledger.withdrawals(b) == st0.ledger.withdrawals(b) by {
                    assert(before.ledger.withdrawals(b) == st0.ledger.withdrawals(b));
                }
            }
        }
        if self.state.orders[k].is_active() {
            let ghost before = self.state;
            self.close_order(k, OrderStatus::Cancelled);
            proof {
                let st = self.state;
                assert forall|j: int| st0.trades@.len() <= j < st.trades@.len() implies
                    maker_ok(&st, #[trigger] st.trades@[j], side) by {
                    let m = st.trades@[j].maker_order_id as int;
                    assert(maker_ok(&before, before.trades@[j], side));
                    if m - 1 != k {
                        assert(st.orders@[m - 1] == before.orders@[m - 1]);
                    }
                }
                assert forall|b: Seq<char>| #[trigger] st.ledger.deposits(b) == st0.ledger.deposits(b) by {
                    assert(before.ledger.deposits(b) == st0.ledger.deposits(b));
                }
                assert forall|b: Seq<char>| #[trigger] st.ledger.withdrawals(b) == st0.ledger.withdrawals(b) by {
                    assert(before.ledger.withdrawals(b) == st0.ledger.withdrawals(b));
                }
            }
        }
    }

    /// Fires the parked stop orders whose trigger the last trade price has
    /// reached (nothing fires before the first trade): each is matched at once,
    /// with its own price as limit, and what it cannot fill is cancelled.
    /// Returns how many fired. The parked orders still live whose trigger was
    /// not reached stay parked, in order; the entries of finished orders go.
    pub fn trigger_stop_orders(&mut self, now: Timestamp) -> (r: u64)
        requires
            old(self).state.wf(),
        ensures
            final(self).state.wf(),
            final(self).state.orders@.len() == old(self).state.orders@.len(),
            final(self).state.ledger.same_flows(&old(self).state.ledger),
            old(self).state.market_stats.total_trades == 0 ==> r == 0 && final(self).state.orders@ == old(self).state.orders@
                && final(self).state.stop_orders@ == old(self).state.stop_orders@,
            old(self).state.market_stats.total_trades > 0 ==> ({
                let st0 = old(self).state;
                let last = st0.market_stats.last_price;
                &&& r == firing(st0.stop_orders@, &st0, last).len()
                &&& final(self).state.stop_orders@ == waiting(st0.stop_orders@, &st0, last)
                &&& forall|j: int| 0 <= j < st0.stop_orders@.len() && fires(&st0, #[trigger] st0.stop_orders@[j], last)
                    ==> !is_live(final(self).state.get(st0.stop_orders@[j] as int))
                // the new trades are those of fired orders, each matched with its own price as limit
                &&& final(self).state.trades@.len() >= st0.trades@.len()
                &&& final(self).state.trades@.take(st0.trades@.len() as int) == st0.trades@
                &&& forall|j: int| st0.trades@.len() <= j < final(self).state.trades@.len() ==> {
                    let t = #[trigger] final(self).state.trades@[j];
                    let o = st0.get(t.taker_order_id as int);
                    &&& fires(&st0, t.taker_order_id, last)
                    &&& crosses(o.side, o.price, t.price)
                    &&& maker_ok(&final(self).state, t, o.side)
                }
            }),
    {
        if self.state.market_stats.total_trades == 0 {
            return 0;
        }
        let last = self.state.market_stats.last_price;
        let ghost st0 = self.state;
        let stops = self.state.stop_orders.clone();
        // judge every parked order on the book as it stands now
        let mut kept: Vec<OrderId> = Vec::new();
        let mut to_fire: Vec<OrderId> = Vec::new();
        let mut i: usize = 0;
        while i < stops.len()
            invariant
                self.state == st0,
                st0.wf(),
                stops@ == st0.stop_orders@,
                i <= stops@.len(),
                kept@ == waiting(stops@.take(i as int), &st0, last),
                to_fire@ == firing(stops@.take(i as int), &st0, last),
            decreases stops@.len() - i,
        {
            proof {
                assert(stops@.take(i + 1).drop_last() =~= stops@.take(i as int));
                assert(stops@.take(i + 1).last() == stops@[i as int]);
            }
            let id = stops[i];
            if id >= 1 && id < self.state.next_order_id {
                let o = self.state.orders[slot(id, self.state.orders.len())];
                if o.is_active() {
                    if triggered_exec(&o, last) {
                        to_fire.push(id);
                    } else {
                        kept.push(id);
                    }
                }
            }
            i = i + 1;
        }
        proof {
            assert(stops@.take(i as int) =~= stops@);
            lemma_firing_members(st0.stop_orders@, &st0, last);
        }
        // then fire them
        let mut fired: u64 = 0;
        let mut j: usize = 0;
        while j < to_fire.len()
            invariant
                self.state.wf(),
                j <= to_fire@.len(),
                fired == j,
                to_fire@ == firing(st0.stop_orders@, &st0, last),
                self.state.orders@.len() == st0.orders@.len(),
                self.state.ledger.same_flows(&st0.ledger),
                self.state.config == st0.config,
                self.state.next_order_id == st0.next_order_id,
                forall|m: int| 0 <= m < j ==> 1 <= #[trigger] to_fire@[m] <= st0.orders@.len()
                    && !is_live(self.state.orders@[to_fire@[m] - 1]),
                forall|m: int| 0 <= m < to_fire@.len() ==> 1 <= #[trigger] to_fire@[m] <= st0.orders@.len(),
                forall|m: int| 0 <= m < to_fire@.len() ==> fires(&st0, #[trigger] to_fire@[m], last),
                forall|i: int| 0 <= i < st0.orders@.len() ==> same_order_terms(st0.orders@[i], #[trigger] self.state.orders@[i]),
                self.state.trades@.len() >= st0.trades@.len(),
                self.state.trades@.take(st0.trades@.len() as int) == st0.trades@,
                forall|jj: int| st0.trades@.len() <= jj < self.state.trades@.len() ==> {
                    let t = #[trigger] self.state.trades@[jj];
                    let o = st0.get(t.taker_order_id as int);
                    &&& fires(&st0, t.taker_order_id, last)
                    &&& crosses(o.side, o.price, t.price)
                    &&& maker_ok(&self.state, t, o.side)
                },
            decreases to_fire@.len() - j,
        {
            let id = to_fire[j];
            let k = slot(id, self.state.orders.len());
            let ghost before = self.state;
            if self.state.orders[k].is_active() {
                self.unrest(k);
                let ghost mid = self.state;
                self.match_and_close(k, now);
                proof {
                    let st = self.state;
                    assert forall|b: Seq<char>| #[trigger] st.ledger.deposits(b) == st0.ledger.deposits(b) by {
                        assert(mid.ledger.deposits(b) == st0.ledger.deposits(b));
                    }
                    assert forall|b: Seq<char>| #[trigger] st.ledger.withdrawals(b) == st0.ledger.withdrawals(b) by {
                        assert(mid.ledger.withdrawals(b) == st0.ledger.withdrawals(b));
                    }
                    assert(st.trades@.take(st0.trades@.len() as int) =~= mid.trades@.take(st0.trades@.len() as int));
                    assert forall|i: int| 0 <= i < st0.orders@.len() implies same_order_terms(st0.orders@[i], #[trigger] st.orders@[i]) by {
                        assert(same_order_terms(st0.orders@[i], mid.orders@[i]));
                        assert(same_order_terms(mid.orders@[i], st.orders@[i]));
                    }
                    assert(fires(&st0, id, last));
                    assert forall|jj: int| st0.trades@.len() <= jj < st.trades@.len() implies {
                        let t = #[trigger] st.trades@[jj];
                        let o = st0.get(t.taker_order_id as int);
                        &&& fires(&st0, t.taker_order_id, last)
                        &&& crosses(o.side, o.price, t.price)
                        &&& maker_ok(&st, t, o.side)
                    } by {
                        let t = st.trades@[jj];
                        if jj < mid.trades@.len() {
                            assert(t == mid.trades@[jj]);
                            let o = st0.get(t.taker_order_id as int);
                            let m = t.maker_order_id as int;
                            assert(maker_ok(&mid, t, o.side));
                            assert(same_order_terms(mid.orders@[m - 1], st.orders@[m - 1]));
                        } else {
                            assert(t.taker_order_id == k + 1);
                            assert(same_order_terms(st0.orders@[k as int], mid.orders@[k as int]));
                        }
                    }
                    assert forall|m: int| 0 <= m < j implies 1 <= #[trigger] to_fire@[m] <= st0.orders@.len()
                        && !is_live(st.orders@[to_fire@[m] - 1]) by {
                        let x = to_fire@[m] - 1;
                        assert(!is_live(mid.orders@[x]));
                        if x != k {
                            assert(st.orders@[x] == mid.orders@[x]);
                        }
                    }
                }
            }
            fired = fired + 1;
            j = j + 1;
        }
        proof {
            lemma_firing_members(st0.stop_orders@, &st0, last);
            assert forall|m: int| 0 <= m < st0.stop_orders@.len() && fires(&st0, #[trigger] st0.stop_orders@[m], last)
                implies !is_live(self.state.get(st0.stop_orders@[m] as int)) by {
                let p = choose|p: int| 0 <= p < to_fire@.len() && to_fire@[p] == st0.stop_orders@[m];
                assert(!is_live(self.state.orders@[to_fire@[p] - 1]));
            }
        }
        self.state.stop_orders = kept;
        fired
    }
}

/// Order `o` has an expiry time, and it has come by `now`.
pub open spec fn due(o: Order, now: Timestamp) -> bool {
    match o.expires_at {
        Some(t) => t <= now,
        None => false,
    }
}

/// How many of the first `n` orders differ between `a` and `b`.
pub open spec fn changed_count(a: Seq<Order>, b: Seq<Order>, n: int) -> int
    decreases n,
{
    if n <= 0 {
        0
    } else {
        changed_count(a, b, n - 1) + if a[n - 1] != b[n - 1] {
            1int
        } else {
            0
        }
    }
}

proof fn lemma_changed_count_agree(a: Seq<Order>, b: Seq<Order>, c: Seq<Order>, n: int)
    requires
        forall|j: int| 0 <= j < n ==> b[j] == c[j],
    ensures
        changed_count(a, b, n) == changed_count(a, c, n),
    decreases n,
{
    if n > 0 {
        lemma_changed_count_agree(a, b, c, n - 1);
    }
}

proof fn lemma_changed_count_tail(a: Seq<Order>, b: Seq<Order>, i: int, n: int)
    requires
        0 <= i <= n,
        forall|j: int| i <= j < n ==> b[j] == a[j],
    ensures
        changed_count(a, b, n) == changed_count(a, b, i),
    decreases n - i,
{
    if n > i {
        lemma_changed_count_tail(a, b, i, n - 1);
    }
}

/// Order `o2` is live order `o`, due at `now`, expired.
pub open spec fn expired_from(o: Order, o2: Order, now: Timestamp) -> bool {
    &&& is_live(o)
    &&& match o.expires_at {
        Some(t) => t <= now,
        None => false,
    }
    &&& o2 == (Order { status: OrderStatus::Expired, reserved: 0, ..o })
}

/// Most orders that one call of `expire_orders` expires.
pub const EXPIRY_BATCH: u64 = 10;

impl OrderBookContract {
    /// Takes live order `k` out of the book, wherever it rests.
    fn unrest(&mut self, k: usize)
        requires
            old(self).state.wf(),
            k < old(self).state.orders@.len(),
            is_live(old(self).state.orders@[k as int]),
        ensures
            final(self).state.wf(),
            absent(final(self).state.bids@, k + 1),
            absent(final(self).state.asks@, k + 1),
            final(self).state.orders@ == old(self).state.orders@,
            final(self).state.ledger == old(self).state.ledger,
            final(self).state.config == old(self).state.config,
            final(self).state.next_order_id == old(self).state.next_order_id,
            final(self).state.trades@ == old(self).state.trades@,
    {
        let ghost prev = self.state;
        let o = self.state.orders[k];
        let id = o.id;
        proof {
            assert(id == k + 1);
            assert(order_ok(prev.orders@[k as int]));
        }
        if o.side == OrderSide::Buy {
            match find_resting(&self.state.bids, OrderSide::Buy, &self.state.orders, id) {
                Some((l, p)) => {
                    remove_at(&mut self.state.bids, OrderSide::Buy, &self.state.orders, l, p);
                },
                None => {},
            }
            proof {
                lemma_absent_other_side(prev.asks@, OrderSide::Sell, prev.orders@, k as int);
            }
        } else {
            match find_resting(&self.state.asks, OrderSide::Sell, &self.state.orders, id) {
                Some((l, p)) => {
                    remove_at(&mut self.state.asks, OrderSide::Sell, &self.state.orders, l, p);
                },
                None => {},
            }
            proof {
                lemma_absent_other_side(prev.bids@, OrderSide::Buy, prev.orders@, k as int);
            }
        }
        self.refresh_best();
    }

    /// Expires, in order of id, the live orders whose `expires_at` has passed:
    /// each leaves the book and its lock goes back to its owner. At most
    /// `EXPIRY_BATCH` per call; returns how many it expired.
    pub fn expire_orders(&mut self, now: Timestamp) -> (r: u64)
        requires
            old(self).state.wf(),
        ensures
            final(self).state.wf(),
            r <= EXPIRY_BATCH,
            final(self).state.orders@.len() == old(self).state.orders@.len(),
            forall|i: int| 0 <= i < old(self).state.orders@.len() ==> {
                let o = old(self).state.orders@[i];
                let o2 = #[trigger] final(self).state.orders@[i];
                o2 == o || expired_from(o, o2, now)
            },
            r == changed_count(old(self).state.orders@, final(self).state.orders@, old(self).state.orders@.len() as int),
            r < EXPIRY_BATCH ==> forall|i: int| 0 <= i < final(self).state.orders@.len() ==> !(is_live(
                #[trigger] final(self).state.orders@[i]) && due(final(self).state.orders@[i], now)),
            final(self).state.ledger.same_flows(&old(self).state.ledger),
    {
        let ghost st0 = self.state;
        let mut expired: u64 = 0;
        let mut i: usize = 0;
        while i < self.state.orders.len() && expired < EXPIRY_BATCH
            invariant
                self.state.wf(),
                expired <= EXPIRY_BATCH,
                self.state.orders@.len() == st0.orders@.len(),
                forall|j: int| 0 <= j < st0.orders@.len() ==> {
                    let o = st0.orders@[j];
                    let o2 = #[trigger] self.state.orders@[j];
                    o2 == o || expired_from(o, o2, now)
                },
                i <= self.state.orders@.len(),
                expired == changed_count(st0.orders@, self.state.orders@, i as int),
                forall|j: int| i <= j < st0.orders@.len() ==> #[trigger] self.state.orders@[j] == st0.orders@[j],
                forall|j: int| 0 <= j < i ==> !(is_live(#[trigger] self.state.orders@[j]) && due(self.state.orders@[j], now)),
                self.state.ledger.same_flows(&st0.ledger),
            decreases self.state.orders@.len() - i,
        {
            let o = self.state.orders[i];
            let due = match o.expires_at {
                Some(t) => t <= now,
                None => false,
            };
            if o.is_active() && due {
                let ghost before = self.state;
                self.unrest(i);
                self.close_order(i, OrderStatus::Expired);
                expired = expired + 1;
                proof {
                    let st = self.state;
                    assert forall|j: int| 0 <= j < st0.orders@.len() implies {
                        let o0 = st0.orders@[j];
                        let o2 = #[trigger] st.orders@[j];
                        o2 == o0 || expired_from(o0, o2, now)
                    } by {
                        let o0 = st0.orders@[j];
                        let ob = before.orders@[j];
                        assert(ob == o0 || expired_from(o0, ob, now));
                    }
                    assert forall|b: Seq<char>| #[trigger] st.ledger.deposits(b) == st0.ledger.deposits(b) by {
                        assert(before.ledger.deposits(b) == st0.ledger.deposits(b));
                    }
                    assert forall|b: Seq<char>| #[trigger] st.ledger.withdrawals(b) == st0.ledger.withdrawals(b) by {
                        assert(before.ledger.withdrawals(b) == st0.ledger.withdrawals(b));
                    }
                    assert(st.orders@ =~= before.orders@.update(i as int, st.orders@[i as int]));
                    lemma_changed_count_agree(st0.orders@, before.orders@, st.orders@, i as int);
                    assert(st.orders@[i as int] != st0.orders@[i as int]);
                }
            }
            i = i + 1;
        }
        proof {
            lemma_changed_count_tail(st0.orders@, self.state.orders@, i as int, st0.orders@.len() as int);
        }
        expired
    }
}

/// Every live order keeps locked, in the ledger, at least what its remaining
/// quantity needs: quote for a buy at its limit price, base for a sell.
pub proof fn lemma_live_orders_covered(st: &OrderBookState, id: OrderId)
    requires
        st.wf(),
        st.has(id as int),
        is_live(st.get(id as int)),
    ensures
        st.ledger.locked(st.get(id as int).user, lock_asset(st.get(id as int), st.base(), st.quote()))
            >= remaining_lock(st.get(id as int)),
{
    assert(order_ok(st.orders@[id - 1]));
    lemma_reserved_covered(st, id - 1);
}

/// Every price level's total is the sum of the remaining quantities of the
/// orders resting on it.
pub proof fn lemma_level_totals(st: &OrderBookState, l: int, side: OrderSide)
    requires
        st.wf(),
        0 <= l < own_side(st, side).len(),
    ensures
        own_side(st, side)[l].total_quantity == sum(level_terms(st.orders@, own_side(st, side)[l].orders@)),
{
}

/// Placing a limit order that does not cross and then cancelling it gives all
/// that it locked back to the free balance: every balance is as before. The
/// two relations required are what `place_order` and `cancel_order` promise
/// for such an order.
pub proof fn lemma_place_then_cancel(
    before: &OrderBookState,
    placed: &OrderBookState,
    after: &OrderBookState,
    caller: Account,
    asset: Seq<char>,
    amount: int,
)
    requires
        placed.ledger.moved(&before.ledger, asset, Holder::Free(caller), -amount, Holder::Locked(caller), amount),
        after.ledger.moved(&placed.ledger, asset, Holder::Locked(caller), -amount, Holder::Free(caller), amount),
    ensures
        forall|h: Holder, b: Seq<char>| #[trigger] after.ledger.balance(h, b) == before.ledger.balance(h, b),
{
    assert forall|h: Holder, b: Seq<char>| #[trigger] after.ledger.balance(h, b) == before.ledger.balance(h, b) by {
        assert(placed.ledger.balance(h, b) == before.ledger.balance(h, b) + delta(h, b, Holder::Free(caller), asset, -amount) + delta(h, b, Holder::Locked(caller), asset, amount));
    }
}

/// A fill-or-kill order that the book cannot fill in full is rejected, and by
/// the contract of `place_order` a rejected order leaves the book, the orders,
/// the trades and the balances as they were.
pub proof fn lemma_fill_or_kill_rejected(
    book: &OrderBookContract,
    caller: Account,
    side: OrderSide,
    price: Price,
    quantity: Quantity,
)
    requires
        book.state.wf(),
        book.state.config.is_active,
        quantity > 0,
        book.state.config.min_order_size <= quantity <= book.state.config.max_order_size,
        price > 0,
        price % book.state.config.tick_size == 0,
        crossing_depth(opposite(&book.state, side), side, price) < quantity,
    ensures
        book.place_outcome(caller, side, OrderType::Limit, price, quantity, TimeInForce::FOK) == Err::<OrderId, OrderBookError>(
            OrderBookError::InvalidOrder { reason: InvalidOrderReason::CannotFillInFull },
        ),
{
    let opp = opposite(&book.state, side);
    if opp.len() > 0 && crosses(side, price, opp[0].price) {
        assert(opp[0].total_quantity == sum(level_terms(book.state.orders@, opp[0].orders@)));
    }
}

} // verus!
