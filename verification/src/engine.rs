use crate::ledger::{
    avail_of, escrow_amount, escrow_asset, locked_of, spec_credit, spec_lock, Ledger,
};
use crate::orderbook::{
    cancel_post, depth_post, flat, place_post, total_remaining, BookV, LevelV, Orderbook,
};
use crate::types::{Order, OrderV, Side, Trade, trades_view};
use vstd::prelude::*;

verus! {

/// One inbound command, decoded at the boundary into a closed set of
/// operations: placement, cancellation, a depth query or a deposit.
pub enum Command {
    PlaceOrder { market: String, base_asset: String, order: Order },
    CancelOrder { market: String, order_id: u64 },
    GetDepth { market: String },
    AddBalance { user_id: String, asset: String, amount: u64 },
}

/// The typed outcome of one engine operation.
pub enum EngineResult {
    /// The order was admitted; these trades were generated, in order.
    Placed(Vec<Trade>),
    /// Escrow failed: the order never reached a book.
    InsufficientFunds,
    /// The named market has no book: the command had no effect.
    UnknownMarket,
    /// The cancelled order, as it rested.
    Cancelled(Order),
    /// No resting order carried the id.
    OrderNotFound,
    /// Per-side depth: (bid levels, ask levels), each `(price, unfilled)`.
    Depth((Vec<(u64, u64)>, Vec<(u64, u64)>)),
    /// The deposit was credited.
    BalanceAdded,
}

/// One market's book, keyed by market name.
pub struct MarketEntry {
    pub market: String,
    pub book: Orderbook,
}

/// The multi-market engine: every market's book plus the one shared
/// ledger that gates admission.
pub struct Engine {
    pub orderbooks: Vec<MarketEntry>,
    pub balances: Ledger,
}

/// The map a market entry sequence stands for.
pub open spec fn market_map(s: Seq<MarketEntry>) -> Map<Seq<char>, BookV>
    decreases s.len(),
{
    if s.len() == 0 {
        Map::empty()
    } else {
        market_map(s.drop_last()).insert(s.last().market@, s.last().book@)
    }
}

/// No two entries share a market name.
pub open spec fn markets_unique(s: Seq<MarketEntry>) -> bool {
    forall|i: int, j: int|
        0 <= i < j < s.len() ==> (#[trigger] s[i]).market@ != (#[trigger] s[j]).market@
}

/// The map's domain is exactly the entries' keys.
pub proof fn lemma_market_map_domain(s: Seq<MarketEntry>)
    ensures
        forall|i: int| 0 <= i < s.len() ==> market_map(s).contains_key((#[trigger] s[i]).market@),
        forall|k: Seq<char>|
            #[trigger] market_map(s).contains_key(k) ==> exists|i: int|
                0 <= i < s.len() && (#[trigger] s[i]).market@ == k,
    decreases s.len(),
{
    if s.len() > 0 {
        lemma_market_map_domain(s.drop_last());
        assert forall|i: int| 0 <= i < s.len() implies market_map(s).contains_key(
            (#[trigger] s[i]).market@,
        ) by {
            if i < s.len() - 1 {
                assert(s.drop_last()[i] == s[i]);
            }
        }
        assert forall|k: Seq<char>| #[trigger] market_map(s).contains_key(k) implies exists|i: int|
            0 <= i < s.len() && (#[trigger] s[i]).market@ == k by {
            if k != s.last().market@ {
                assert(market_map(s.drop_last()).contains_key(k));
                let i = choose|i: int|
                    0 <= i < s.drop_last().len() && (#[trigger] s.drop_last()[i]).market@ == k;
                assert(s.drop_last()[i] == s[i]);
                assert(s[i].market@ == k);
            } else {
                assert(s[s.len() - 1].market@ == k);
            }
        }
    }
}

/// With unique keys, entry `i` gives its key's book.
pub proof fn lemma_market_map_index(s: Seq<MarketEntry>, i: int)
    requires
        markets_unique(s),
        0 <= i < s.len(),
    ensures
        market_map(s).contains_key(s[i].market@),
        market_map(s)[s[i].market@] == s[i].book@,
    decreases s.len(),
{
    lemma_market_map_domain(s);
    if i < s.len() - 1 {
        assert(markets_unique(s.drop_last())) by {
            assert forall|a: int, b: int|
                0 <= a < b < s.drop_last().len() implies (#[trigger] s.drop_last()[a]).market@ != (
            #[trigger] s.drop_last()[b]).market@ by {
                assert(s.drop_last()[a] == s[a]);
                assert(s.drop_last()[b] == s[b]);
            }
        }
        assert(s.drop_last()[i] == s[i]);
        lemma_market_map_index(s.drop_last(), i);
        assert(s[i].market@ != s.last().market@);
    }
}

/// Updating entry `i`'s book updates just its key in the map.
pub proof fn lemma_market_map_update(s: Seq<MarketEntry>, i: int, e: MarketEntry)
    requires
        markets_unique(s),
        0 <= i < s.len(),
        e.market@ == s[i].market@,
    ensures
        market_map(s.update(i, e)) == market_map(s).insert(e.market@, e.book@),
        markets_unique(s.update(i, e)),
    decreases s.len(),
{
    let s1 = s.update(i, e);
    assert forall|a: int, b: int| 0 <= a < b < s1.len() implies (#[trigger] s1[a]).market@ != (
    #[trigger] s1[b]).market@ by {
        assert(s1[a].market@ == s[a].market@);
        assert(s1[b].market@ == s[b].market@);
    }
    if i == s.len() - 1 {
        assert(s1.drop_last() =~= s.drop_last());
        assert(market_map(s1) =~= market_map(s).insert(e.market@, e.book@));
    } else {
        assert(markets_unique(s.drop_last())) by {
            assert forall|a: int, b: int|
                0 <= a < b < s.drop_last().len() implies (#[trigger] s.drop_last()[a]).market@ != (
            #[trigger] s.drop_last()[b]).market@ by {
                assert(s.drop_last()[a] == s[a]);
                assert(s.drop_last()[b] == s[b]);
            }
        }
        assert(s1.drop_last() =~= s.drop_last().update(i, e));
        assert(s.drop_last()[i] == s[i]);
        lemma_market_map_update(s.drop_last(), i, e);
        assert(s1.last() == s.last());
        assert(s.last().market@ != e.market@);
        assert(market_map(s1) == market_map(s.drop_last()).insert(e.market@, e.book@).insert(
            s.last().market@,
            s.last().book@,
        ));
        assert(market_map(s1) =~= market_map(s).insert(e.market@, e.book@));
    }
}

/// The book an empty market starts with.
pub open spec fn empty_book(market: Seq<char>) -> BookV {
    BookV {
        market,
        bids: Seq::<LevelV>::empty(),
        asks: Seq::<LevelV>::empty(),
        next_trade_id: 0,
    }
}

/// The full effect of a placement command on the engine: an unknown market
/// changes nothing; otherwise escrow is attempted first, a failed escrow
/// leaves every book untouched, and a successful one sends the order to
/// exactly the named market's book.
pub open spec fn engine_place_post(
    pre: Engine,
    market: Seq<char>,
    o: OrderV,
    base: Seq<char>,
    post: Engine,
    r: EngineResult,
) -> bool {
    let books0 = pre.books();
    let bal0 = pre.balances@;
    if !books0.contains_key(market) {
        &&& r is UnknownMarket
        &&& post.books() == books0
        &&& post.balances@ == bal0
    } else {
        let lr = spec_lock(bal0, o.user_id, escrow_asset(o, base), escrow_amount(o));
        &&& post.balances@ == lr.1
        &&& if !lr.0 {
            &&& r is InsufficientFunds
            &&& post.books() == books0
        } else {
            match r {
                EngineResult::Placed(ts) => {
                    &&& place_post(books0[market], o, post.books()[market], trades_view(ts@))
                    &&& post.books() == books0.insert(market, post.books()[market])
                },
                _ => false,
            }
        }
    }
}

/// The full effect of a cancellation command on the engine.
pub open spec fn engine_cancel_post(
    pre: Engine,
    market: Seq<char>,
    order_id: int,
    post: Engine,
    r: EngineResult,
) -> bool {
    let books0 = pre.books();
    &&& post.balances@ == pre.balances@
    &&& if !books0.contains_key(market) {
        &&& r is UnknownMarket
        &&& post.books() == books0
    } else {
        &&& post.books() == books0.insert(market, post.books()[market])
        &&& post.books()[market].next_trade_id == books0[market].next_trade_id
        &&& post.books()[market].market == books0[market].market
        &&& match r {
            EngineResult::Cancelled(o) => cancel_post(
                books0[market],
                order_id,
                post.books()[market],
                Some(o),
            ),
            EngineResult::OrderNotFound => cancel_post(
                books0[market],
                order_id,
                post.books()[market],
                None,
            ),
            _ => false,
        }
    }
}

impl Engine {
    /// The engine's books, as a map from market name to book state.
    pub open spec fn books(&self) -> Map<Seq<char>, BookV> {
        market_map(self.orderbooks@)
    }

    /// Engine invariant: one book per market name, each well formed and
    /// carrying its own name, over a well-formed ledger.
    pub open spec fn wf(&self) -> bool {
        &&& markets_unique(self.orderbooks@)
        &&& forall|i: int|
            0 <= i < self.orderbooks@.len() ==> (#[trigger] self.orderbooks@[i]).book@.wf()
                && self.orderbooks@[i].book@.market == self.orderbooks@[i].market@
        &&& self.balances.wf()
    }

    /// What a placement command asks of the engine: a representable fill
    /// state, a representable escrow amount, and trade-counter headroom in
    /// the target book.
    pub open spec fn place_ok(self, market: Seq<char>, o: OrderV) -> bool {
        &&& o.fill_ok()
        &&& (o.side == Side::Buy ==> o.price * o.quantity <= u64::MAX)
        &&& (self.books().contains_key(market) ==> self.books()[market].next_trade_id
            + total_remaining(flat(self.books()[market].bids)) + total_remaining(
            flat(self.books()[market].asks),
        ) + o.remaining() <= u64::MAX)
    }

    /// What each command asks of the engine (machine limits only).
    pub open spec fn cmd_ok(self, cmd: Command) -> bool {
        match cmd {
            Command::PlaceOrder { market, base_asset, order } => self.place_ok(market@, order@),
            Command::AddBalance { user_id, asset, amount } => avail_of(
                self.balances@,
                user_id@,
                asset@,
            ) + locked_of(self.balances@, user_id@, asset@) + amount <= u64::MAX,
            Command::CancelOrder { .. } => true,
            Command::GetDepth { .. } => true,
        }
    }

    /// An engine with no markets and an empty ledger.
    pub fn new() -> (e: Self)
        ensures
            e.books() == Map::<Seq<char>, BookV>::empty(),
            e.balances@ == Map::<Seq<char>, crate::ledger::UserBalanceV>::empty(),
            e.wf(),
    {
        let e = Engine { orderbooks: Vec::new(), balances: Ledger::new() };
        proof {
            assert(e.orderbooks@.len() == 0);
        }
        e
    }

    /// The position of `market`'s entry, if any.
    fn find_market(&self, market: &String) -> (r: Option<usize>)
        ensures
            ({
                match r {
                    Option::Some(i) => (i as int) < self.orderbooks@.len()
                        && self.orderbooks@[i as int].market@ == market@,
                    Option::None => forall|i: int|
                        0 <= i < self.orderbooks@.len() ==> (#[trigger] self.orderbooks@[i]).market@
                            != market@,
                }
            }),
    {
        let mut i: usize = 0;
        while i < self.orderbooks.len()
            invariant
                i <= self.orderbooks.len(),
                forall|j: int|
                    0 <= j < i as int ==> (#[trigger] self.orderbooks@[j]).market@ != market@,
            decreases self.orderbooks.len() - i,
        {
            if self.orderbooks[i].market == *market {
                return Some(i);
            }
            i = i + 1;
        }
        None
    }

    /// Whether a book exists for `market`.
    pub fn has_market(&self, market: &String) -> (b: bool)
        ensures
            b == self.books().contains_key(market@),
    {
        let found = self.find_market(market);
        proof {
            lemma_market_map_domain(self.orderbooks@);
            match found {
                Option::Some(i) => {},
                Option::None => {
                    if self.books().contains_key(market@) {
                        let i = choose|i: int|
                            0 <= i < self.orderbooks@.len()
                                && (#[trigger] self.orderbooks@[i]).market@ == market@;
                        assert(false);
                    }
                },
            }
        }
        match found {
            Some(_) => true,
            None => false,
        }
    }

    /// Create (or reset) the empty book for `market`. Must run before any
    /// command that names the market.
    pub fn add_market(&mut self, market: String)
        requires
            old(self).wf(),
        ensures
            final(self).wf(),
            final(self).books() == old(self).books().insert(market@, empty_book(market@)),
            final(self).balances@ == old(self).balances@,
    {
        let ghost s0 = self.orderbooks@;
        let found = self.find_market(&market);
        let book = Orderbook::new(market.clone());
        let entry = MarketEntry { market, book };
        match found {
            Some(i) => {
                let _ = self.orderbooks.remove(i);
                self.orderbooks.insert(i, entry);
                proof {
                    assert(self.orderbooks@ =~= s0.update(i as int, self.orderbooks@[i as int]));
                    lemma_market_map_update(s0, i as int, self.orderbooks@[i as int]);
                    assert forall|i2: int|
                        0 <= i2 < self.orderbooks@.len() implies (
                    #[trigger] self.orderbooks@[i2]).book@.wf() && self.orderbooks@[i2].book@.market
                        == self.orderbooks@[i2].market@ by {
                        if i2 != i as int {
                            assert(self.orderbooks@[i2] == s0[i2]);
                        }
                    }
                }
            },
            None => {
                self.orderbooks.push(entry);
                proof {
                    let s1 = self.orderbooks@;
                    assert(s1.drop_last() =~= s0);
                    lemma_market_map_domain(s0);
                    assert forall|a: int, b: int| 0 <= a < b < s1.len() implies (
                    #[trigger] s1[a]).market@ != (#[trigger] s1[b]).market@ by {
                        if b < s1.len() - 1 {
                            assert(s1[a] == s0[a]);
                            assert(s1[b] == s0[b]);
                        } else {
                            assert(s1[a] == s0[a]);
                        }
                    }
                    assert forall|i2: int|
                        0 <= i2 < s1.len() implies (#[trigger] s1[i2]).book@.wf()
                        && s1[i2].book@.market == s1[i2].market@ by {
                        if i2 < s1.len() - 1 {
                            assert(s1[i2] == s0[i2]);
                        }
                    }
                }
            },
        }
    }

    /// Admit one order: check the market, escrow the funds, and only then
    /// let the target book match it, as [`engine_place_post`] describes.
    /// The ledger step finishes before the book is touched.
    pub fn place_order(&mut self, market: String, order: Order, base_asset: &String) -> (r:
        EngineResult)
        requires
            old(self).wf(),
            old(self).place_ok(market@, order@),
        ensures
            final(self).wf(),
            engine_place_post(*old(self), market@, order@, base_asset@, *final(self), r),
    {
        let ghost pre = *self;
        let found = self.find_market(&market);
        match found {
            None => {
                proof {
                    lemma_market_map_domain(self.orderbooks@);
                    if self.books().contains_key(market@) {
                        let i = choose|i: int|
                            0 <= i < self.orderbooks@.len()
                                && (#[trigger] self.orderbooks@[i]).market@ == market@;
                        assert(false);
                    }
                }
                EngineResult::UnknownMarket
            },
            Some(i) => {
                proof {
                    lemma_market_map_index(self.orderbooks@, i as int);
                }
                let ok = self.balances.lock_funds(&order, base_asset);
                if !ok {
                    EngineResult::InsufficientFunds
                } else {
                    let ghost s1 = self.orderbooks@;
                    let mut entry = self.orderbooks.remove(i);
                    proof {
                        assert(entry.book@ == pre.books()[market@]);
                        assert(entry.book.can_place(order@));
                    }
                    let trades = entry.book.place_order(order);
                    self.orderbooks.insert(i, entry);
                    proof {
                        assert(self.orderbooks@ =~= s1.update(
                            i as int,
                            self.orderbooks@[i as int],
                        ));
                        lemma_market_map_update(s1, i as int, self.orderbooks@[i as int]);
                        assert forall|i2: int|
                            0 <= i2 < self.orderbooks@.len() implies (
                        #[trigger] self.orderbooks@[i2]).book@.wf()
                            && self.orderbooks@[i2].book@.market == self.orderbooks@[i2].market@ by {
                            if i2 != i as int {
                                assert(self.orderbooks@[i2] == s1[i2]);
                            }
                        }
                    }
                    EngineResult::Placed(trades)
                }
            },
        }
    }

    /// Forward a cancellation to the named market's book, as
    /// [`engine_cancel_post`] describes.
    pub fn cancel_order(&mut self, market: String, order_id: u64) -> (r: EngineResult)
        requires
            old(self).wf(),
        ensures
            final(self).wf(),
            engine_cancel_post(*old(self), market@, order_id as int, *final(self), r),
    {
        let ghost pre = *self;
        let found = self.find_market(&market);
        match found {
            None => {
                proof {
                    lemma_market_map_domain(self.orderbooks@);
                    if self.books().contains_key(market@) {
                        let i = choose|i: int|
                            0 <= i < self.orderbooks@.len()
                                && (#[trigger] self.orderbooks@[i]).market@ == market@;
                        assert(false);
                    }
                }
                EngineResult::UnknownMarket
            },
            Some(i) => {
                proof {
                    lemma_market_map_index(self.orderbooks@, i as int);
                }
                let ghost s1 = self.orderbooks@;
                let mut entry = self.orderbooks.remove(i);
                let cancelled = entry.book.cancel_order(order_id);
                self.orderbooks.insert(i, entry);
                proof {
                    assert(self.orderbooks@ =~= s1.update(i as int, self.orderbooks@[i as int]));
                    lemma_market_map_update(s1, i as int, self.orderbooks@[i as int]);
                    assert forall|i2: int|
                        0 <= i2 < self.orderbooks@.len() implies (
                    #[trigger] self.orderbooks@[i2]).book@.wf() && self.orderbooks@[i2].book@.market
                        == self.orderbooks@[i2].market@ by {
                        if i2 != i as int {
                            assert(self.orderbooks@[i2] == s1[i2]);
                        }
                    }
                }
                match cancelled {
                    Some(o) => EngineResult::Cancelled(o),
                    None => EngineResult::OrderNotFound,
                }
            },
        }
    }

    /// Report the named market's depth, both sides, without changing
    /// anything.
    pub fn get_depth(&self, market: String) -> (r: EngineResult)
        requires
            self.wf(),
        ensures
            ({
                let books = self.books();
                if !books.contains_key(market@) {
                    r is UnknownMarket
                } else {
                    match r {
                        EngineResult::Depth(d) => depth_post(books[market@].bids, d.0@)
                            && depth_post(books[market@].asks, d.1@),
                        _ => false,
                    }
                }
            }),
    {
        let found = self.find_market(&market);
        match found {
            None => {
                proof {
                    lemma_market_map_domain(self.orderbooks@);
                    if self.books().contains_key(market@) {
                        let i = choose|i: int|
                            0 <= i < self.orderbooks@.len()
                                && (#[trigger] self.orderbooks@[i]).market@ == market@;
                        assert(false);
                    }
                }
                EngineResult::UnknownMarket
            },
            Some(i) => {
                proof {
                    lemma_market_map_index(self.orderbooks@, i as int);
                }
                EngineResult::Depth(self.orderbooks[i].book.get_depth())
            },
        }
    }

    /// Credit a deposit to the shared ledger; within the machine bound a
    /// deposit always succeeds and touches no book.
    pub fn add_balance(&mut self, user_id: String, asset: String, amount: u64)
        requires
            old(self).wf(),
            avail_of(old(self).balances@, user_id@, asset@) + locked_of(
                old(self).balances@,
                user_id@,
                asset@,
            ) + amount <= u64::MAX,
        ensures
            final(self).wf(),
            final(self).books() == old(self).books(),
            final(self).balances@ == spec_credit(
                old(self).balances@,
                user_id@,
                asset@,
                amount as int,
            ),
    {
        self.balances.add_balance(user_id, asset, amount);
    }

    /// Dispatch one decoded command to the operation it names and return
    /// that operation's typed outcome.
    pub fn process(&mut self, cmd: Command) -> (r: EngineResult)
        requires
            old(self).wf(),
            old(self).cmd_ok(cmd),
        ensures
            final(self).wf(),
            ({
                match cmd {
                    Command::PlaceOrder { market, base_asset, order } => engine_place_post(
                        *old(self),
                        market@,
                        order@,
                        base_asset@,
                        *final(self),
                        r,
                    ),
                    Command::CancelOrder { market, order_id } => engine_cancel_post(
                        *old(self),
                        market@,
                        order_id as int,
                        *final(self),
                        r,
                    ),
                    Command::GetDepth { market } => *final(self) == *old(self) && (if !old(
                        self,
                    ).books().contains_key(market@) {
                        r is UnknownMarket
                    } else {
                        match r {
                            EngineResult::Depth(d) => depth_post(
                                old(self).books()[market@].bids,
                                d.0@,
                            ) && depth_post(old(self).books()[market@].asks, d.1@),
                            _ => false,
                        }
                    }),
                    Command::AddBalance { user_id, asset, amount } => final(self).books() == old(
                        self,
                    ).books() && final(self).balances@ == spec_credit(
                        old(self).balances@,
                        user_id@,
                        asset@,
                        amount as int,
                    ) && r is BalanceAdded,
                }
            }),
    {
        match cmd {
            Command::PlaceOrder { market, base_asset, order } => self.place_order(
                market,
                order,
                &base_asset,
            ),
            Command::CancelOrder { market, order_id } => self.cancel_order(market, order_id),
            Command::GetDepth { market } => self.get_depth(market),
            Command::AddBalance { user_id, asset, amount } => {
                self.add_balance(user_id, asset, amount);
                EngineResult::BalanceAdded
            },
        }
    }

    /// The user's available balance of `asset` in the shared ledger.
    pub fn available_balance(&self, user: &String, asset: &String) -> (v: u64)
        requires
            self.wf(),
        ensures
            v as int == avail_of(self.balances@, user@, asset@),
    {
        self.balances.available_balance(user, asset)
    }

    /// The user's locked balance of `asset` in the shared ledger.
    pub fn locked_balance(&self, user: &String, asset: &String) -> (v: u64)
        requires
            self.wf(),
        ensures
            v as int == locked_of(self.balances@, user@, asset@),
    {
        self.balances.locked_balance(user, asset)
    }
}

} // verus!
