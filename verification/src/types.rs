use vstd::prelude::*;

verus! {

/// Which side of the book an order stands on.
#[derive(Clone, Copy, Debug, PartialEq, Eq, Structural)]
pub enum Side {
    Buy,
    Sell,
}

/// A limit order. `filled` counts the quantity already matched and never
/// exceeds `quantity`; an order rests in a book exactly while
/// `filled < quantity`.
#[derive(Clone, Debug)]
pub struct Order {
    pub id: u64,
    pub user_id: String,
    pub side: Side,
    pub price: u64,
    pub quantity: u64,
    pub filled: u64,
}

/// Spec-level image of an [`Order`].
pub struct OrderV {
    pub id: int,
    pub user_id: Seq<char>,
    pub side: Side,
    pub price: int,
    pub quantity: int,
    pub filled: int,
}

impl View for Order {
    type V = OrderV;

    open spec fn view(&self) -> OrderV {
        OrderV {
            id: self.id as int,
            user_id: self.user_id@,
            side: self.side,
            price: self.price as int,
            quantity: self.quantity as int,
            filled: self.filled as int,
        }
    }
}

impl OrderV {
    /// Quantity still waiting to be matched.
    pub open spec fn remaining(self) -> int {
        self.quantity - self.filled
    }

    /// The same order with a new cumulative fill.
    pub open spec fn with_filled(self, filled: int) -> OrderV {
        OrderV { filled, ..self }
    }

    /// The fill state an order must keep throughout its lifetime.
    pub open spec fn fill_ok(self) -> bool {
        0 <= self.filled <= self.quantity
    }
}

/// A record of one match. Immutable once created; `id` is book-local and
/// increases by one with every trade of that book, starting from 0.
#[derive(Clone, Debug)]
pub struct Trade {
    pub id: u64,
    pub price: u64,
    pub quantity: u64,
    pub maker_order_id: u64,
    pub taker_order_id: u64,
    pub maker_user_id: String,
    pub taker_user_id: String,
}

/// Spec-level image of a [`Trade`].
pub struct TradeV {
    pub id: int,
    pub price: int,
    pub quantity: int,
    pub maker_order_id: int,
    pub taker_order_id: int,
    pub maker_user_id: Seq<char>,
    pub taker_user_id: Seq<char>,
}

impl View for Trade {
    type V = TradeV;

    open spec fn view(&self) -> TradeV {
        TradeV {
            id: self.id as int,
            price: self.price as int,
            quantity: self.quantity as int,
            maker_order_id: self.maker_order_id as int,
            taker_order_id: self.taker_order_id as int,
            maker_user_id: self.maker_user_id@,
            taker_user_id: self.taker_user_id@,
        }
    }
}

/// The images of a sequence of trades.
pub open spec fn trades_view(ts: Seq<Trade>) -> Seq<TradeV> {
    ts.map_values(|t: Trade| t@)
}

/// The images of a sequence of orders.
pub open spec fn orders_view(os: Seq<Order>) -> Seq<OrderV> {
    os.map_values(|o: Order| o@)
}

/// What one book operation produced.
pub enum OrderbookResult {
    /// The trades a placement generated, in the order they happened.
    Trades(Vec<Trade>),
    /// The order a cancellation removed from the book.
    CancelledOrder(Order),
    /// A cancellation that found no order with the given id.
    OrderNotFound,
    /// Per-side depth: (bid levels, ask levels), each `(price, unfilled)`.
    Depth((Vec<(u64, u64)>, Vec<(u64, u64)>)),
}

} // verus!
