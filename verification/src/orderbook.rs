use crate::types::{Order, OrderV, OrderbookResult, Side, Trade, TradeV, orders_view, trades_view};
use vstd::prelude::*;

verus! {

// ---------------------------------------------------------------------------
// Spec model
// ---------------------------------------------------------------------------

/// Spec-level image of one price level: all resting orders sharing one
/// price, in arrival order.
pub struct LevelV {
    pub price: int,
    pub queue: Seq<OrderV>,
}

/// Spec-level image of a whole book.
pub struct BookV {
    pub market: Seq<char>,
    /// Bid levels, best (highest) price first.
    pub bids: Seq<LevelV>,
    /// Ask levels, best (lowest) price first.
    pub asks: Seq<LevelV>,
    /// The id the next generated trade will carry.
    pub next_trade_id: int,
}

/// True when price `a` has strictly better matching priority than `b`
/// among orders resting on `side`.
pub open spec fn better_price(side: Side, a: int, b: int) -> bool {
    match side {
        Side::Buy => a > b,
        Side::Sell => a < b,
    }
}

/// True when a resting price satisfies the limit of an incoming order of
/// side `taker_side`: a buy matches asks priced at or below its limit, a
/// sell matches bids priced at or above its limit.
pub open spec fn crosses(taker_side: Side, limit: int, price: int) -> bool {
    match taker_side {
        Side::Buy => price <= limit,
        Side::Sell => price >= limit,
    }
}

/// The side opposing `side`.
pub open spec fn spec_opposite(side: Side) -> Side {
    match side {
        Side::Buy => Side::Sell,
        Side::Sell => Side::Buy,
    }
}

/// What must hold of every order resting in a book: partially unfilled,
/// with all numeric fields representable.
pub open spec fn resting_ok(o: OrderV) -> bool {
    &&& 0 <= o.id <= u64::MAX
    &&& 0 <= o.price <= u64::MAX
    &&& 0 <= o.filled < o.quantity <= u64::MAX
}

/// Well-formedness of one level holding orders of `side`: never empty, and
/// every queued order carries the level's price and side.
pub open spec fn level_wf(side: Side, l: LevelV) -> bool {
    &&& l.queue.len() > 0
    &&& 0 <= l.price <= u64::MAX
    &&& forall|j: int|
        0 <= j < l.queue.len() ==> resting_ok(#[trigger] l.queue[j]) && l.queue[j].price == l.price
            && l.queue[j].side == side
}

/// Well-formedness of one side of a book: well-formed levels, strictly
/// ordered from best to worst price for that side.
pub open spec fn side_wf(side: Side, levels: Seq<LevelV>) -> bool {
    &&& forall|i: int| 0 <= i < levels.len() ==> level_wf(side, #[trigger] levels[i])
    &&& forall|i: int, j: int|
        0 <= i < j < levels.len() ==> better_price(side, levels[i].price, levels[j].price)
}

/// All resting orders of one side, flattened into matching-priority order:
/// best level first, arrival order within a level.
pub open spec fn flat(levels: Seq<LevelV>) -> Seq<OrderV>
    decreases levels.len(),
{
    if levels.len() == 0 {
        Seq::empty()
    } else {
        levels[0].queue + flat(levels.drop_first())
    }
}

/// Total unfilled quantity of a queue of orders.
pub open spec fn total_remaining(s: Seq<OrderV>) -> int
    decreases s.len(),
{
    if s.len() == 0 {
        0
    } else {
        s[0].remaining() + total_remaining(s.drop_first())
    }
}

impl BookV {
    /// The levels an incoming order of side `taker` matches against.
    pub open spec fn opposing(self, taker: Side) -> Seq<LevelV> {
        match taker {
            Side::Buy => self.asks,
            Side::Sell => self.bids,
        }
    }

    /// The levels an incoming order of side `taker` would rest on.
    pub open spec fn own_side(self, taker: Side) -> Seq<LevelV> {
        match taker {
            Side::Buy => self.bids,
            Side::Sell => self.asks,
        }
    }

    /// Book invariant: both sides well formed, and enough headroom that
    /// the trade counter, which advances by one per unit at most, fits.
    pub open spec fn wf(self) -> bool {
        &&& side_wf(Side::Buy, self.bids)
        &&& side_wf(Side::Sell, self.asks)
        &&& 0 <= self.next_trade_id
        &&& self.next_trade_id + total_remaining(flat(self.bids)) + total_remaining(flat(self.asks))
            <= u64::MAX
    }
}

/// The outcome of crossing one incoming order against one side's flattened
/// queue of resting orders.
pub struct MatchResultV {
    /// Trades generated, in order.
    pub trades: Seq<TradeV>,
    /// The resting queue after matching.
    pub makers: Seq<OrderV>,
    /// The incoming order after matching.
    pub taker: OrderV,
    /// The trade counter after matching.
    pub next_trade_id: int,
}

/// Price-time-priority crossing, defined over the flattened opposing
/// queue (best price first, arrival order within a price): while the
/// front resting order satisfies the taker's limit and the taker is not
/// fully filled, both fill by the smaller of the two unfilled quantities
/// and a trade at the resting order's price is recorded.
pub open spec fn match_rec(makers: Seq<OrderV>, taker: OrderV, next_id: int) -> MatchResultV
    decreases makers.len(),
{
    if makers.len() == 0 || !crosses(taker.side, taker.price, makers[0].price) || taker.filled
        == taker.quantity {
        MatchResultV { trades: Seq::empty(), makers, taker, next_trade_id: next_id }
    } else {
        let m = makers[0];
        let q = vstd::math::min(taker.remaining(), m.remaining());
        let t = TradeV {
            id: next_id,
            price: m.price,
            quantity: q,
            maker_order_id: m.id,
            taker_order_id: taker.id,
            maker_user_id: m.user_id,
            taker_user_id: taker.user_id,
        };
        let taker2 = taker.with_filled(taker.filled + q);
        let m2 = m.with_filled(m.filled + q);
        if m2.filled == m2.quantity {
            let rest = match_rec(makers.drop_first(), taker2, next_id + 1);
            MatchResultV {
                trades: seq![t] + rest.trades,
                makers: rest.makers,
                taker: rest.taker,
                next_trade_id: rest.next_trade_id,
            }
        } else {
            MatchResultV {
                trades: seq![t],
                makers: makers.update(0, m2),
                taker: taker2,
                next_trade_id: next_id + 1,
            }
        }
    }
}

/// `new_flat` is `old_flat` with `o` inserted at position `k`, behind
/// every resting order of at-least-equal priority and ahead of every
/// strictly worse one.
pub open spec fn rested_at(
    side: Side,
    old_flat: Seq<OrderV>,
    new_flat: Seq<OrderV>,
    o: OrderV,
    k: int,
) -> bool {
    &&& 0 <= k <= old_flat.len()
    &&& new_flat == old_flat.take(k) + seq![o] + old_flat.skip(k)
    &&& forall|j: int| 0 <= j < k ==> !better_price(side, o.price, #[trigger] old_flat[j].price)
    &&& forall|j: int|
        k <= j < old_flat.len() ==> better_price(side, o.price, #[trigger] old_flat[j].price)
}

/// How an unfilled incoming order comes to rest: `new_flat` is `old_flat`
/// with `o` inserted behind every resting order of at-least-equal priority
/// and ahead of every strictly worse one. The split point is unique, so
/// this pins `new_flat`.
pub open spec fn is_rested(
    side: Side,
    old_flat: Seq<OrderV>,
    new_flat: Seq<OrderV>,
    o: OrderV,
) -> bool {
    exists|k: int| rested_at(side, old_flat, new_flat, o, k)
}

/// Whether some order in `s` carries `id`.
pub open spec fn has_order(s: Seq<OrderV>, id: int) -> bool {
    exists|j: int| 0 <= j < s.len() && (#[trigger] s[j]).id == id
}

/// The position of the first order in `s` carrying `id` (`s.len()` when
/// there is none).
pub open spec fn first_idx(s: Seq<OrderV>, id: int) -> int
    decreases s.len(),
{
    if s.len() == 0 {
        0
    } else if s[0].id == id {
        0
    } else {
        1 + first_idx(s.drop_first(), id)
    }
}

/// The full effect of cancelling `id` in book `pre`: the first order
/// carrying `id` — bids searched before asks, in flat order — leaves its
/// queue and is returned; a book without it is untouched.
pub open spec fn cancel_post(pre: BookV, id: int, post: BookV, r: Option<Order>) -> bool {
    let bids0 = flat(pre.bids);
    let asks0 = flat(pre.asks);
    if has_order(bids0, id) {
        &&& (match r {
            Option::Some(o) => o@ == bids0[first_idx(bids0, id)],
            Option::None => false,
        })
        &&& flat(post.bids) == bids0.remove(first_idx(bids0, id))
        &&& post.asks == pre.asks
    } else if has_order(asks0, id) {
        &&& (match r {
            Option::Some(o) => o@ == asks0[first_idx(asks0, id)],
            Option::None => false,
        })
        &&& flat(post.asks) == asks0.remove(first_idx(asks0, id))
        &&& post.bids == pre.bids
    } else {
        &&& r is None
        &&& post == pre
    }
}

/// Per-side depth: entry `i` reports level `i`'s price and the total
/// unfilled quantity resting at it.
pub open spec fn depth_post(levels: Seq<LevelV>, d: Seq<(u64, u64)>) -> bool {
    &&& d.len() == levels.len()
    &&& forall|i: int|
        0 <= i < levels.len() ==> (#[trigger] d[i]).0 == levels[i].price && d[i].1
            == total_remaining(levels[i].queue)
}

/// The full effect of placing `o` into book `pre`: the opposing side and
/// the trades are exactly what [`match_rec`] gives, and what is left of
/// the order rests on its own side if and only if it is still unfilled.
pub open spec fn place_post(pre: BookV, o: OrderV, post: BookV, trades: Seq<TradeV>) -> bool {
    let r = match_rec(flat(pre.opposing(o.side)), o, pre.next_trade_id);
    &&& trades == r.trades
    &&& flat(post.opposing(o.side)) == r.makers
    &&& post.next_trade_id == r.next_trade_id
    &&& if r.taker.filled < r.taker.quantity {
        is_rested(o.side, flat(pre.own_side(o.side)), flat(post.own_side(o.side)), r.taker)
    } else {
        flat(post.own_side(o.side)) == flat(pre.own_side(o.side))
    }
    &&& post.market == pre.market
}

// ---------------------------------------------------------------------------
// Lemmas about the spec model
// ---------------------------------------------------------------------------

/// Unfilled quantities add up over concatenation.
pub proof fn lemma_total_app(a: Seq<OrderV>, b: Seq<OrderV>)
    ensures
        total_remaining(a + b) == total_remaining(a) + total_remaining(b),
    decreases a.len(),
{
    if a.len() == 0 {
        assert(a + b =~= b);
    } else {
        assert((a + b).drop_first() =~= a.drop_first() + b);
        lemma_total_app(a.drop_first(), b);
    }
}

/// A queue of orders whose fills never exceed their quantities has a
/// non-negative total unfilled quantity.
pub proof fn lemma_total_nonneg(s: Seq<OrderV>)
    requires
        forall|j: int| 0 <= j < s.len() ==> (#[trigger] s[j]).filled <= s[j].quantity,
    ensures
        total_remaining(s) >= 0,
    decreases s.len(),
{
    if s.len() > 0 {
        lemma_total_nonneg(s.drop_first());
    }
}

/// Flattening distributes over concatenation of level sequences.
pub proof fn lemma_flat_app(a: Seq<LevelV>, b: Seq<LevelV>)
    ensures
        flat(a + b) == flat(a) + flat(b),
    decreases a.len(),
{
    if a.len() == 0 {
        assert(a + b =~= b);
        assert(flat(a) + flat(b) =~= flat(b));
    } else {
        assert((a + b).drop_first() =~= a.drop_first() + b);
        lemma_flat_app(a.drop_first(), b);
        assert(a[0].queue + (flat(a.drop_first()) + flat(b)) =~= (a[0].queue + flat(
            a.drop_first(),
        )) + flat(b));
    }
}

/// Dropping the best level keeps a side well formed.
pub proof fn lemma_side_wf_drop_first(side: Side, s: Seq<LevelV>)
    requires
        side_wf(side, s),
        s.len() > 0,
    ensures
        side_wf(side, s.drop_first()),
{
    assert forall|i: int| 0 <= i < s.drop_first().len() implies level_wf(
        side,
        #[trigger] s.drop_first()[i],
    ) by {
        assert(s.drop_first()[i] == s[i + 1]);
    }
    assert forall|i: int, j: int| 0 <= i < j < s.drop_first().len() implies better_price(
        side,
        s.drop_first()[i].price,
        s.drop_first()[j].price,
    ) by {
        assert(s.drop_first()[i] == s[i + 1]);
        assert(s.drop_first()[j] == s[j + 1]);
    }
}

/// Every order in the flattening of a well-formed side is a well-formed
/// resting order.
pub proof fn lemma_flat_resting(side: Side, s: Seq<LevelV>)
    requires
        side_wf(side, s),
    ensures
        forall|j: int| 0 <= j < flat(s).len() ==> resting_ok(#[trigger] flat(s)[j]),
    decreases s.len(),
{
    if s.len() > 0 {
        lemma_side_wf_drop_first(side, s);
        lemma_flat_resting(side, s.drop_first());
        assert(level_wf(side, s[0]));
        assert forall|j: int| 0 <= j < flat(s).len() implies resting_ok(#[trigger] flat(s)[j]) by {
            if j < s[0].queue.len() {
                assert(flat(s)[j] == s[0].queue[j]);
            } else {
                assert(flat(s)[j] == flat(s.drop_first())[j - s[0].queue.len()]);
            }
        }
    }
}

/// The flattening of a well-formed side has a non-negative total.
pub proof fn lemma_flat_total_nonneg(side: Side, s: Seq<LevelV>)
    requires
        side_wf(side, s),
    ensures
        total_remaining(flat(s)) >= 0,
{
    lemma_flat_resting(side, s);
    lemma_total_nonneg(flat(s));
}

/// Any prefix or suffix of a well-formed side is well formed.
pub proof fn lemma_side_wf_subrange(side: Side, s: Seq<LevelV>, i: int)
    requires
        side_wf(side, s),
        0 <= i <= s.len(),
    ensures
        side_wf(side, s.take(i)),
        side_wf(side, s.skip(i)),
{
    assert forall|a: int| 0 <= a < s.take(i).len() implies level_wf(
        side,
        #[trigger] s.take(i)[a],
    ) by {
        assert(s.take(i)[a] == s[a]);
    }
    assert forall|a: int| 0 <= a < s.skip(i).len() implies level_wf(
        side,
        #[trigger] s.skip(i)[a],
    ) by {
        assert(s.skip(i)[a] == s[a + i]);
    }
    assert forall|a: int, b: int| 0 <= a < b < s.take(i).len() implies better_price(
        side,
        s.take(i)[a].price,
        s.take(i)[b].price,
    ) by {
        assert(s.take(i)[a] == s[a]);
        assert(s.take(i)[b] == s[b]);
    }
    assert forall|a: int, b: int| 0 <= a < b < s.skip(i).len() implies better_price(
        side,
        s.skip(i)[a].price,
        s.skip(i)[b].price,
    ) by {
        assert(s.skip(i)[a] == s[a + i]);
        assert(s.skip(i)[b] == s[b + i]);
    }
}

/// A price predicate that holds of every level of a well-formed side holds
/// of every order in its flattening.
pub proof fn lemma_flat_price_pred(side: Side, s: Seq<LevelV>, pr: spec_fn(int) -> bool)
    requires
        side_wf(side, s),
        forall|i: int| 0 <= i < s.len() ==> pr((#[trigger] s[i]).price),
    ensures
        forall|j: int| 0 <= j < flat(s).len() ==> pr((#[trigger] flat(s)[j]).price),
    decreases s.len(),
{
    if s.len() > 0 {
        lemma_side_wf_drop_first(side, s);
        assert forall|i: int| 0 <= i < s.drop_first().len() implies pr(
            (#[trigger] s.drop_first()[i]).price,
        ) by {
            assert(s.drop_first()[i] == s[i + 1]);
        }
        lemma_flat_price_pred(side, s.drop_first(), pr);
        assert(level_wf(side, s[0]));
        assert forall|j: int| 0 <= j < flat(s).len() implies pr((#[trigger] flat(s)[j]).price) by {
            if j < s[0].queue.len() {
                assert(flat(s)[j] == s[0].queue[j]);
            } else {
                assert(flat(s)[j] == flat(s.drop_first())[j - s[0].queue.len()]);
            }
        }
    }
}

/// A sequence that holds `id` at `j` and not before holds it first at `j`.
pub proof fn lemma_first_idx_at(s: Seq<OrderV>, id: int, j: int)
    requires
        0 <= j < s.len(),
        s[j].id == id,
        forall|jj: int| 0 <= jj < j ==> (#[trigger] s[jj]).id != id,
    ensures
        has_order(s, id),
        first_idx(s, id) == j,
    decreases s.len(),
{
    if j == 0 {
    } else {
        assert forall|jj: int| 0 <= jj < j - 1 implies (#[trigger] s.drop_first()[jj]).id != id by {
            assert(s.drop_first()[jj] == s[jj + 1]);
        }
        assert(s.drop_first()[j - 1] == s[j]);
        lemma_first_idx_at(s.drop_first(), id, j - 1);
    }
}

/// Searching a concatenation whose first part lacks `id` lands in the
/// second part.
pub proof fn lemma_first_idx_app(a: Seq<OrderV>, b: Seq<OrderV>, id: int)
    requires
        !has_order(a, id),
    ensures
        has_order(a + b, id) == has_order(b, id),
        has_order(b, id) ==> first_idx(a + b, id) == a.len() + first_idx(b, id),
    decreases a.len(),
{
    if a.len() == 0 {
        assert(a + b =~= b);
    } else {
        assert(a[0].id != id);
        assert(!has_order(a.drop_first(), id)) by {
            if has_order(a.drop_first(), id) {
                let j = choose|j: int|
                    0 <= j < a.drop_first().len() && (#[trigger] a.drop_first()[j]).id == id;
                assert(a[j + 1].id == id);
            }
        }
        assert((a + b).drop_first() =~= a.drop_first() + b);
        lemma_first_idx_app(a.drop_first(), b, id);
        if has_order(a.drop_first() + b, id) {
            let j = choose|j: int|
                0 <= j < (a.drop_first() + b).len() && (#[trigger] (a.drop_first() + b)[j]).id
                    == id;
            assert((a + b)[j + 1].id == id);
        }
        if has_order(a + b, id) {
            let j = choose|j: int| 0 <= j < (a + b).len() && (#[trigger] (a + b)[j]).id == id;
            assert(j != 0);
            assert((a.drop_first() + b)[j - 1].id == id);
        }
    }
}

/// Searching a concatenation whose first part holds `id` lands in the
/// first part.
pub proof fn lemma_first_idx_prefix(a: Seq<OrderV>, b: Seq<OrderV>, id: int)
    requires
        has_order(a, id),
    ensures
        has_order(a + b, id),
        first_idx(a + b, id) == first_idx(a, id),
    decreases a.len(),
{
    let w = choose|j: int| 0 <= j < a.len() && (#[trigger] a[j]).id == id;
    assert((a + b)[w].id == id);
    if a[0].id == id {
    } else {
        assert((a + b).drop_first() =~= a.drop_first() + b);
        assert(has_order(a.drop_first(), id)) by {
            assert(w != 0);
            assert(a.drop_first()[w - 1].id == id);
        }
        lemma_first_idx_prefix(a.drop_first(), b, id);
    }
}

/// If no level of `s` queues an order with `id`, the flattening has none.
pub proof fn lemma_flat_no_id(s: Seq<LevelV>, id: int)
    requires
        forall|i: int| 0 <= i < s.len() ==> !has_order((#[trigger] s[i]).queue, id),
    ensures
        !has_order(flat(s), id),
    decreases s.len(),
{
    if s.len() == 0 {
        assert(!has_order(flat(s), id));
    } else {
        assert forall|i: int| 0 <= i < s.drop_first().len() implies !has_order(
            (#[trigger] s.drop_first()[i]).queue,
            id,
        ) by {
            assert(s.drop_first()[i] == s[i + 1]);
        }
        lemma_flat_no_id(s.drop_first(), id);
        if has_order(flat(s), id) {
            let j = choose|j: int| 0 <= j < flat(s).len() && (#[trigger] flat(s)[j]).id == id;
            if j < s[0].queue.len() {
                assert(s[0].queue[j].id == id);
            } else {
                assert(flat(s.drop_first())[j - s[0].queue.len()].id == id);
            }
        }
    }
}

/// Removing one order lowers the total by exactly its unfilled quantity.
pub proof fn lemma_total_remove(s: Seq<OrderV>, j: int)
    requires
        0 <= j < s.len(),
    ensures
        total_remaining(s.remove(j)) == total_remaining(s) - s[j].remaining(),
{
    assert(s =~= s.take(j) + seq![s[j]] + s.skip(j + 1));
    assert(s.remove(j) =~= s.take(j) + s.skip(j + 1));
    lemma_total_app(s.take(j) + seq![s[j]], s.skip(j + 1));
    lemma_total_app(s.take(j), seq![s[j]]);
    lemma_total_app(s.take(j), s.skip(j + 1));
    assert(total_remaining(seq![s[j]]) == s[j].remaining()) by {
        assert(seq![s[j]].drop_first() =~= Seq::<OrderV>::empty());
        assert(total_remaining(Seq::<OrderV>::empty()) == 0);
    }
}

/// The combined effect of cancelling the order at queue position `jj` of
/// level `ii`, the first with `id` in flat order: the flattening loses
/// exactly that position, the side stays well formed, and the total drops
/// by the order's unfilled quantity.
#[verifier::rlimit(50)]
proof fn lemma_cancel_found(side: Side, s0: Seq<LevelV>, s1: Seq<LevelV>, ii: int, jj: int, id: int)
    requires
        side_wf(side, s0),
        0 <= ii < s0.len(),
        0 <= jj < s0[ii].queue.len(),
        s0[ii].queue[jj].id == id,
        forall|jj2: int| 0 <= jj2 < jj ==> (#[trigger] s0[ii].queue[jj2]).id != id,
        forall|a: int| 0 <= a < ii ==> !has_order((#[trigger] s0[a]).queue, id),
        s0[ii].queue.len() > 1 ==> s1 == s0.update(
            ii,
            LevelV { price: s0[ii].price, queue: s0[ii].queue.remove(jj) },
        ),
        s0[ii].queue.len() == 1 ==> s1 == s0.remove(ii),
    ensures
        side_wf(side, s1),
        has_order(flat(s0), id),
        0 <= first_idx(flat(s0), id) < flat(s0).len(),
        flat(s0)[first_idx(flat(s0), id)] == s0[ii].queue[jj],
        flat(s1) == flat(s0).remove(first_idx(flat(s0), id)),
        total_remaining(flat(s1)) == total_remaining(flat(s0)) - s0[ii].queue[jj].remaining(),
{
    let q = s0[ii].queue;
    let f0 = flat(s0);
    let f1 = flat(s1);
    let pre = flat(s0.take(ii));
    let suf = flat(s0.skip(ii + 1));
    assert(s0 =~= s0.take(ii) + seq![s0[ii]] + s0.skip(ii + 1));
    lemma_flat_app(s0.take(ii) + seq![s0[ii]], s0.skip(ii + 1));
    lemma_flat_app(s0.take(ii), seq![s0[ii]]);
    assert(flat(seq![s0[ii]]) =~= q) by {
        assert(seq![s0[ii]].drop_first() =~= Seq::<LevelV>::empty());
        assert(flat(Seq::<LevelV>::empty()) =~= Seq::<OrderV>::empty());
    }
    assert(f0 == pre + q + suf);
    assert(f0 =~= pre + (q + suf));
    // where the first hit sits in flat order
    assert forall|a: int| 0 <= a < s0.take(ii).len() implies !has_order(
        (#[trigger] s0.take(ii)[a]).queue,
        id,
    ) by {
        assert(s0.take(ii)[a] == s0[a]);
    }
    lemma_flat_no_id(s0.take(ii), id);
    lemma_first_idx_at(q, id, jj);
    lemma_first_idx_prefix(q, suf, id);
    lemma_first_idx_app(pre, q + suf, id);
    let k = pre.len() + jj;
    assert(has_order(f0, id));
    assert(first_idx(f0, id) == k);
    assert(f0[k] == q[jj]);
    // the flattening after removal
    lemma_side_wf_subrange(side, s0, ii);
    lemma_side_wf_subrange(side, s0, ii + 1);
    if q.len() > 1 {
        let lv = LevelV { price: s0[ii].price, queue: q.remove(jj) };
        assert(s1 =~= s0.take(ii) + seq![lv] + s0.skip(ii + 1));
        lemma_flat_app(s0.take(ii) + seq![lv], s0.skip(ii + 1));
        lemma_flat_app(s0.take(ii), seq![lv]);
        assert(flat(seq![lv]) =~= q.remove(jj)) by {
            assert(seq![lv].drop_first() =~= Seq::<LevelV>::empty());
            assert(flat(Seq::<LevelV>::empty()) =~= Seq::<OrderV>::empty());
        }
        assert(f1 == pre + q.remove(jj) + suf);
        assert(f1 =~= f0.remove(k));
        assert(level_wf(side, s0[ii]));
        assert forall|a: int| 0 <= a < s1.len() implies level_wf(side, #[trigger] s1[a]) by {
            if a != ii {
                assert(s1[a] == s0[a]);
            } else {
                assert forall|b: int| 0 <= b < s1[a].queue.len() implies resting_ok(
                    #[trigger] s1[a].queue[b],
                ) && s1[a].queue[b].price == s1[a].price && s1[a].queue[b].side == side by {
                    if b < jj {
                        assert(s1[a].queue[b] == q[b]);
                    } else {
                        assert(s1[a].queue[b] == q[b + 1]);
                    }
                }
            }
        }
        assert forall|a: int, b: int| 0 <= a < b < s1.len() implies better_price(
            side,
            s1[a].price,
            s1[b].price,
        ) by {
            assert(s1[a].price == s0[a].price);
            assert(s1[b].price == s0[b].price);
        }
    } else {
        assert(s1 == s0.remove(ii));
        assert(s1 =~= s0.take(ii) + s0.skip(ii + 1));
        lemma_flat_app(s0.take(ii), s0.skip(ii + 1));
        assert(f1 == pre + suf);
        assert(q =~= seq![q[0]]);
        assert(f1 =~= f0.remove(k));
        assert forall|a: int| 0 <= a < s1.len() implies level_wf(side, #[trigger] s1[a]) by {
            if a < ii {
                assert(s1[a] == s0[a]);
            } else {
                assert(s1[a] == s0[a + 1]);
            }
        }
        assert forall|a: int, b: int| 0 <= a < b < s1.len() implies better_price(
            side,
            s1[a].price,
            s1[b].price,
        ) by {
            if b < ii {
            } else if a < ii {
                assert(s1[b] == s0[b + 1]);
            } else {
                assert(s1[a] == s0[a + 1]);
                assert(s1[b] == s0[b + 1]);
            }
        }
    }
    lemma_total_remove(f0, k);
}

// ---------------------------------------------------------------------------
// Exec representation
// ---------------------------------------------------------------------------

/// One price level: a price and the orders resting at it, in arrival order.
pub struct Level {
    pub price: u64,
    pub orders: Vec<Order>,
}

impl View for Level {
    type V = LevelV;

    open spec fn view(&self) -> LevelV {
        LevelV { price: self.price as int, queue: orders_view(self.orders@) }
    }
}

/// The images of a side's levels.
pub open spec fn levels_view(ls: Seq<Level>) -> Seq<LevelV> {
    ls.map_values(|l: Level| l@)
}

/// A message a book can process.
pub enum OrderbookMessage {
    PlaceOrder(Order),
    CancelOrder(u64),
    GetDepth,
}

/// One market's order book: resting liquidity on both sides and the
/// book-local trade counter.
pub struct Orderbook {
    pub market: String,
    /// Bid levels, sorted by price, highest (best) first.
    pub buy_orders: Vec<Level>,
    /// Ask levels, sorted by price, lowest (best) first.
    pub sell_orders: Vec<Level>,
    /// The id the next trade will carry.
    pub last_trade_id: u64,
}

impl View for Orderbook {
    type V = BookV;

    open spec fn view(&self) -> BookV {
        BookV {
            market: self.market@,
            bids: levels_view(self.buy_orders@),
            asks: levels_view(self.sell_orders@),
            next_trade_id: self.last_trade_id as int,
        }
    }
}

impl Orderbook {
    /// What placing `o` asks of a well-formed book: a representable fill
    /// state, and headroom so that neither the trade counter nor a depth
    /// total can outgrow its type.
    pub open spec fn can_place(self, o: OrderV) -> bool {
        &&& self@.wf()
        &&& o.fill_ok()
        &&& self@.next_trade_id + total_remaining(flat(self@.bids)) + total_remaining(
            flat(self@.asks),
        ) + o.remaining() <= u64::MAX
    }

    /// An empty book for `market`.
    pub fn new(market: String) -> (book: Self)
        ensures
            book@ == (BookV {
                market: market@,
                bids: Seq::<LevelV>::empty(),
                asks: Seq::<LevelV>::empty(),
                next_trade_id: 0,
            }),
            book@.wf(),
    {
        let book = Orderbook {
            market,
            buy_orders: Vec::new(),
            sell_orders: Vec::new(),
            last_trade_id: 0,
        };
        proof {
            assert(levels_view(book.buy_orders@) =~= Seq::<LevelV>::empty());
            assert(levels_view(book.sell_orders@) =~= Seq::<LevelV>::empty());
            reveal_with_fuel(flat, 1);
            reveal_with_fuel(total_remaining, 1);
        }
        book
    }
}

/// Whether a resting price satisfies an incoming order's limit.
fn crosses_exec(taker_side: Side, limit: u64, price: u64) -> (b: bool)
    ensures
        b == crosses(taker_side, limit as int, price as int),
{
    match taker_side {
        Side::Buy => price <= limit,
        Side::Sell => price >= limit,
    }
}

/// Cross `taker` against the opposing side's levels, best price first and
/// in arrival order within a level, exactly as [`match_rec`] describes.
/// Returns the generated trades and the taker's final fill state.
fn match_incoming(levels: &mut Vec<Level>, taker: Order, last_trade_id: &mut u64) -> (res: (
    Vec<Trade>,
    Order,
))
    requires
        side_wf(spec_opposite(taker@.side), levels_view(old(levels)@)),
        taker@.fill_ok(),
        *old(last_trade_id) + total_remaining(flat(levels_view(old(levels)@))) + taker@.remaining()
            <= u64::MAX,
    ensures
        ({
            let r = match_rec(
                flat(levels_view(old(levels)@)),
                taker@,
                *old(last_trade_id) as int,
            );
            &&& trades_view(res.0@) == r.trades
            &&& res.1@ == r.taker
            &&& res.1@ == taker@.with_filled(res.1@.filled)
            &&& taker@.filled <= res.1@.filled <= taker@.quantity
            &&& flat(levels_view(final(levels)@)) == r.makers
            &&& *final(last_trade_id) == r.next_trade_id
            &&& side_wf(spec_opposite(taker@.side), levels_view(final(levels)@))
            &&& *final(last_trade_id) + total_remaining(flat(levels_view(final(levels)@)))
                + res.1@.remaining() <= *old(last_trade_id) + total_remaining(
                flat(levels_view(old(levels)@)),
            ) + taker@.remaining()
        }),
{
    let ghost mside = spec_opposite(taker@.side);
    let ghost makers0 = flat(levels_view(levels@));
    let ghost taker0 = taker@;
    let ghost id0 = *last_trade_id as int;
    let mut taker = taker;
    let mut trades: Vec<Trade> = Vec::new();

    while levels.len() > 0 && crosses_exec(taker.side, taker.price, levels[0].price)
        && taker.filled < taker.quantity
        invariant
            side_wf(mside, levels_view(levels@)),
            taker@.fill_ok(),
            taker@ == taker0.with_filled(taker@.filled),
            taker0.filled <= taker@.filled,
            id0 + total_remaining(makers0) + taker0.remaining() <= u64::MAX,
            *last_trade_id as int + total_remaining(flat(levels_view(levels@)))
                + taker@.remaining() <= id0 + total_remaining(makers0) + taker0.remaining(),
            ({
                let rc = match_rec(flat(levels_view(levels@)), taker@, *last_trade_id as int);
                match_rec(makers0, taker0, id0) == (MatchResultV {
                    trades: trades_view(trades@) + rc.trades,
                    makers: rc.makers,
                    taker: rc.taker,
                    next_trade_id: rc.next_trade_id,
                })
            }),
        decreases flat(levels_view(levels@)).len(), taker@.remaining(),
    {
        let ghost s_pre = levels_view(levels@);
        let ghost f_pre = flat(s_pre);
        let ghost taker_pre = taker@;
        let ghost id_pre = *last_trade_id as int;
        proof {
            assert(level_wf(mside, s_pre[0]));
            assert(f_pre == s_pre[0].queue + flat(s_pre.drop_first()));
            lemma_side_wf_drop_first(mside, s_pre);
            lemma_flat_total_nonneg(mside, s_pre.drop_first());
            lemma_total_app(s_pre[0].queue, flat(s_pre.drop_first()));
            lemma_total_nonneg(s_pre[0].queue.drop_first());
            assert(s_pre[0].queue == seq![s_pre[0].queue[0]] + s_pre[0].queue.drop_first()) by {
                assert(s_pre[0].queue =~= seq![s_pre[0].queue[0]] + s_pre[0].queue.drop_first());
            }
            lemma_total_app(seq![s_pre[0].queue[0]], s_pre[0].queue.drop_first());
            assert(total_remaining(seq![s_pre[0].queue[0]]) == s_pre[0].queue[0].remaining()) by {
                assert(seq![s_pre[0].queue[0]].drop_first() =~= Seq::<OrderV>::empty());
            }
        }
        let mut level = levels.remove(0);
        let mut maker = level.orders.remove(0);
        proof {
            assert(levels_view(levels@) =~= s_pre.drop_first());
            assert(maker@ == f_pre[0]);
            assert(resting_ok(maker@));
        }
        let taker_rem = taker.quantity - taker.filled;
        let maker_rem = maker.quantity - maker.filled;
        let q = if taker_rem < maker_rem {
            taker_rem
        } else {
            maker_rem
        };
        taker.filled = taker.filled + q;
        maker.filled = maker.filled + q;
        let trade = Trade {
            id: *last_trade_id,
            price: level.price,
            quantity: q,
            maker_order_id: maker.id,
            taker_order_id: taker.id,
            maker_user_id: maker.user_id.clone(),
            taker_user_id: taker.user_id.clone(),
        };
        let ghost trades_pre = trades@;
        trades.push(trade);
        *last_trade_id = *last_trade_id + 1;
        let ghost maker2 = maker@;
        let filled_maker = maker.filled == maker.quantity;
        if !filled_maker {
            level.orders.insert(0, maker);
            proof {
                assert(orders_view(level.orders@) =~= s_pre[0].queue.update(0, maker2));
            }
        } else {
            proof {
                assert(orders_view(level.orders@) =~= s_pre[0].queue.drop_first());
            }
        }
        if level.orders.len() > 0 {
            let ghost lv = level@;
            levels.insert(0, level);
            proof {
                assert(levels_view(levels@) =~= seq![lv] + s_pre.drop_first());
            }
        }
        proof {
            let rc_pre = match_rec(f_pre, taker_pre, id_pre);
            let s_now = levels_view(levels@);
            let f_now = flat(s_now);
            // The trade the exec code built is the one the spec step builds.
            let m = f_pre[0];
            let qi = vstd::math::min(taker_pre.remaining(), m.remaining());
            assert(q as int == qi);
            assert(trade@ == (TradeV {
                id: id_pre,
                price: m.price,
                quantity: qi,
                maker_order_id: m.id,
                taker_order_id: taker_pre.id,
                maker_user_id: m.user_id,
                taker_user_id: taker_pre.user_id,
            }));
            assert(taker@ == taker_pre.with_filled(taker_pre.filled + qi));
            assert(maker2 == m.with_filled(m.filled + qi));
            assert(trades_view(trades@) =~= trades_view(trades_pre).push(trade@));
            // Relate the new flattened queue to the spec step.
            if !filled_maker {
                assert(s_now == seq![LevelV { price: s_pre[0].price, queue: s_pre[0].queue.update(0, maker2) }] + s_pre.drop_first());
                assert(s_now[0].queue == s_pre[0].queue.update(0, maker2));
                assert(s_now.drop_first() =~= s_pre.drop_first());
                assert(f_now == s_pre[0].queue.update(0, maker2) + flat(s_pre.drop_first()));
                assert(f_now =~= f_pre.update(0, maker2));
                // the taker is now full, so the spec step stops here
                assert(qi == taker_pre.remaining());
                assert(taker@.filled == taker@.quantity);
                assert(match_rec(f_now, taker@, id_pre + 1) == (MatchResultV {
                    trades: Seq::<TradeV>::empty(),
                    makers: f_now,
                    taker: taker@,
                    next_trade_id: id_pre + 1,
                }));
                assert(rc_pre == (MatchResultV {
                    trades: seq![trade@],
                    makers: f_pre.update(0, maker2),
                    taker: taker@,
                    next_trade_id: id_pre + 1,
                }));
                assert(trades_view(trades_pre).push(trade@) + Seq::<TradeV>::empty() =~= trades_view(
                    trades_pre,
                ) + seq![trade@]);
                // the side stays well formed: only the front fill changed
                assert forall|i: int| 0 <= i < s_now.len() implies level_wf(
                    mside,
                    #[trigger] s_now[i],
                ) by {
                    if i > 0 {
                        assert(s_now[i] == s_pre[i]);
                    } else {
                        assert forall|j: int| 0 <= j < s_now[0].queue.len() implies resting_ok(
                            #[trigger] s_now[0].queue[j],
                        ) && s_now[0].queue[j].price == s_now[0].price && s_now[0].queue[j].side
                            == mside by {
                            if j > 0 {
                                assert(s_now[0].queue[j] == s_pre[0].queue[j]);
                            }
                        }
                    }
                }
                assert forall|i: int, j: int| 0 <= i < j < s_now.len() implies better_price(
                    mside,
                    s_now[i].price,
                    s_now[j].price,
                ) by {
                    assert(s_now[i].price == s_pre[i].price);
                    assert(s_now[j].price == s_pre[j].price);
                }
                lemma_total_app(s_pre[0].queue.update(0, maker2), flat(s_pre.drop_first()));
                assert(s_pre[0].queue.update(0, maker2) == seq![maker2] + s_pre[0].queue.drop_first())
                    by {
                    assert(s_pre[0].queue.update(0, maker2) =~= seq![maker2]
                        + s_pre[0].queue.drop_first());
                }
                lemma_total_app(seq![maker2], s_pre[0].queue.drop_first());
                assert(total_remaining(seq![maker2]) == maker2.remaining()) by {
                    assert(seq![maker2].drop_first() =~= Seq::<OrderV>::empty());
                    assert(total_remaining(Seq::<OrderV>::empty()) == 0);
                }
            } else {
                // the maker is fully filled and leaves the queue
                if s_pre[0].queue.len() > 1 {
                    assert(s_now == seq![LevelV { price: s_pre[0].price, queue: s_pre[0].queue.drop_first() }] + s_pre.drop_first());
                    assert(s_now[0].queue == s_pre[0].queue.drop_first());
                    assert(s_now.drop_first() =~= s_pre.drop_first());
                    assert(f_now == s_pre[0].queue.drop_first() + flat(s_pre.drop_first()));
                    assert(f_now =~= f_pre.drop_first());
                    assert forall|i: int| 0 <= i < s_now.len() implies level_wf(
                        mside,
                        #[trigger] s_now[i],
                    ) by {
                        if i > 0 {
                            assert(s_now[i] == s_pre[i]);
                        } else {
                            assert forall|j: int| 0 <= j < s_now[0].queue.len() implies resting_ok(
                                #[trigger] s_now[0].queue[j],
                            ) && s_now[0].queue[j].price == s_now[0].price && s_now[0].queue[j].side
                                == mside by {
                                assert(s_now[0].queue[j] == s_pre[0].queue[j + 1]);
                            }
                        }
                    }
                    assert forall|i: int, j: int| 0 <= i < j < s_now.len() implies better_price(
                        mside,
                        s_now[i].price,
                        s_now[j].price,
                    ) by {
                        assert(s_now[i].price == s_pre[i].price);
                        assert(s_now[j].price == s_pre[j].price);
                    }
                    lemma_total_app(s_pre[0].queue.drop_first(), flat(s_pre.drop_first()));
                } else {
                    assert(s_now == s_pre.drop_first());
                    assert(f_now == flat(s_pre.drop_first()));
                    assert(f_now =~= f_pre.drop_first());
                }
                // one spec step peels exactly this maker off
                assert(maker2.filled == maker2.quantity);
                let rest = match_rec(f_pre.drop_first(), taker@, id_pre + 1);
                assert(rc_pre == (MatchResultV {
                    trades: seq![trade@] + rest.trades,
                    makers: rest.makers,
                    taker: rest.taker,
                    next_trade_id: rest.next_trade_id,
                }));
                assert(trades_view(trades_pre).push(trade@) + rest.trades =~= trades_view(trades_pre)
                    + (seq![trade@] + rest.trades));
            }
        }
    }
    proof {
        let s_end = levels_view(levels@);
        let rc = match_rec(flat(s_end), taker@, *last_trade_id as int);
        if levels@.len() > 0 {
            assert(level_wf(mside, s_end[0]));
            assert(flat(s_end) == s_end[0].queue + flat(s_end.drop_first()));
            if flat(s_end).len() > 0 {
                assert(flat(s_end)[0] == s_end[0].queue[0]);
            }
        }
        assert(rc == (MatchResultV {
            trades: Seq::<TradeV>::empty(),
            makers: flat(s_end),
            taker: taker@,
            next_trade_id: *last_trade_id as int,
        }));
        assert(trades_view(trades@) + Seq::<TradeV>::empty() =~= trades_view(trades@));
    }
    (trades, taker)
}

/// Whether price `a` has strictly better priority than `b` on `side`.
fn better_exec(side: Side, a: u64, b: u64) -> (r: bool)
    ensures
        r == better_price(side, a as int, b as int),
{
    match side {
        Side::Buy => a > b,
        Side::Sell => a < b,
    }
}

/// Rest an unfilled order at the back of its own price level, creating the
/// level at its sorted position if it is absent.
fn insert_resting(levels: &mut Vec<Level>, order: Order)
    requires
        side_wf(order@.side, levels_view(old(levels)@)),
        resting_ok(order@),
    ensures
        side_wf(order@.side, levels_view(final(levels)@)),
        is_rested(
            order@.side,
            flat(levels_view(old(levels)@)),
            flat(levels_view(final(levels)@)),
            order@,
        ),
        total_remaining(flat(levels_view(final(levels)@))) == total_remaining(
            flat(levels_view(old(levels)@)),
        ) + order@.remaining(),
{
    let ghost side = order@.side;
    let ghost s0 = levels_view(levels@);
    let ghost f0 = flat(s0);
    let ghost o = order@;

    let mut i: usize = 0;
    while i < levels.len() && better_exec(order.side, levels[i].price, order.price)
        invariant
            i <= levels.len(),
            side_wf(side, s0),
            levels_view(levels@) == s0,
            order@ == o,
            side == o.side,
            forall|j: int| 0 <= j < i ==> better_price(side, (#[trigger] s0[j]).price, o.price),
        decreases levels.len() - i,
    {
        i = i + 1;
    }
    let ghost ii = i as int;
    proof {
        assert(s0 =~= s0.take(ii) + s0.skip(ii));
        lemma_flat_app(s0.take(ii), s0.skip(ii));
        lemma_side_wf_subrange(side, s0, ii);
        assert forall|a: int| 0 <= a < s0.take(ii).len() implies better_price(
            side,
            (#[trigger] s0.take(ii)[a]).price,
            o.price,
        ) by {
            assert(s0.take(ii)[a] == s0[a]);
        }
        lemma_flat_price_pred(side, s0.take(ii), |x: int| better_price(side, x, o.price));
        lemma_total_nonneg(seq![o]);
    }
    let same_price = i < levels.len() && levels[i].price == order.price;
    if same_price {
        // the level exists: the order queues behind everything at it
        let mut level = levels.remove(i);
        level.orders.push(order);
        proof {
            assert(orders_view(level.orders@) =~= s0[ii].queue.push(o));
        }
        let ghost lv = level@;
        levels.insert(i, level);
        proof {
            let s1 = levels_view(levels@);
            assert(s1 =~= s0.update(ii, lv));
            assert(s1 =~= s0.take(ii) + seq![lv] + s0.skip(ii + 1));
            assert(s0 =~= s0.take(ii) + seq![s0[ii]] + s0.skip(ii + 1));
            lemma_side_wf_subrange(side, s0, ii + 1);
            lemma_flat_app(s0.take(ii) + seq![lv], s0.skip(ii + 1));
            lemma_flat_app(s0.take(ii), seq![lv]);
            lemma_flat_app(s0.take(ii) + seq![s0[ii]], s0.skip(ii + 1));
            lemma_flat_app(s0.take(ii), seq![s0[ii]]);
            assert(flat(seq![lv]) =~= lv.queue) by {
                assert(seq![lv].drop_first() =~= Seq::<LevelV>::empty());
                assert(flat(Seq::<LevelV>::empty()) =~= Seq::<OrderV>::empty());
            }
            assert(flat(seq![s0[ii]]) =~= s0[ii].queue) by {
                assert(seq![s0[ii]].drop_first() =~= Seq::<LevelV>::empty());
                assert(flat(Seq::<LevelV>::empty()) =~= Seq::<OrderV>::empty());
            }
            let k = (flat(s0.take(ii)).len() + s0[ii].queue.len()) as int;
            assert(f0 =~= flat(s0.take(ii)) + s0[ii].queue + flat(s0.skip(ii + 1)));
            assert(flat(s1) =~= flat(s0.take(ii)) + s0[ii].queue.push(o) + flat(s0.skip(ii + 1)));
            assert(f0.take(k) =~= flat(s0.take(ii)) + s0[ii].queue);
            assert(f0.skip(k) =~= flat(s0.skip(ii + 1)));
            assert(flat(s1) =~= f0.take(k) + seq![o] + f0.skip(k));
            // everything at or after the split point is strictly worse
            assert(level_wf(side, s0[ii]));
            assert forall|a: int| 0 <= a < s0.skip(ii + 1).len() implies better_price(
                side,
                o.price,
                (#[trigger] s0.skip(ii + 1)[a]).price,
            ) by {
                assert(s0.skip(ii + 1)[a] == s0[a + ii + 1]);
                assert(better_price(side, s0[ii].price, s0[a + ii + 1].price));
            }
            lemma_flat_price_pred(side, s0.skip(ii + 1), |x: int| better_price(side, o.price, x));
            assert forall|j: int| 0 <= j < k implies !better_price(
                side,
                o.price,
                (#[trigger] f0[j]).price,
            ) by {
                if j < flat(s0.take(ii)).len() {
                    assert(f0[j] == flat(s0.take(ii))[j]);
                } else {
                    assert(f0[j] == s0[ii].queue[j - flat(s0.take(ii)).len()]);
                    assert(f0[j].price == s0[ii].price);
                }
            }
            assert forall|j: int| k <= j < f0.len() implies better_price(
                side,
                o.price,
                (#[trigger] f0[j]).price,
            ) by {
                assert(f0[j] == flat(s0.skip(ii + 1))[j - k]);
            }
            assert(rested_at(side, f0, flat(s1), o, k));
            // the side stays well formed
            assert forall|a: int| 0 <= a < s1.len() implies level_wf(side, #[trigger] s1[a]) by {
                if a != ii {
                    assert(s1[a] == s0[a]);
                } else {
                    assert forall|j: int| 0 <= j < s1[a].queue.len() implies resting_ok(
                        #[trigger] s1[a].queue[j],
                    ) && s1[a].queue[j].price == s1[a].price && s1[a].queue[j].side == side by {
                        if j < s0[ii].queue.len() {
                            assert(s1[a].queue[j] == s0[ii].queue[j]);
                        } else {
                            assert(s1[a].queue[j] == o);
                        }
                    }
                }
            }
            assert forall|a: int, b: int| 0 <= a < b < s1.len() implies better_price(
                side,
                s1[a].price,
                s1[b].price,
            ) by {
                assert(s1[a].price == s0[a].price);
                assert(s1[b].price == s0[b].price);
            }
            // the total grows by exactly the order's unfilled quantity
            lemma_total_app(flat(s0.take(ii)) + s0[ii].queue, flat(s0.skip(ii + 1)));
            lemma_total_app(flat(s0.take(ii)), s0[ii].queue);
            lemma_total_app(flat(s0.take(ii)) + s0[ii].queue.push(o), flat(s0.skip(ii + 1)));
            lemma_total_app(flat(s0.take(ii)), s0[ii].queue.push(o));
            lemma_total_app(s0[ii].queue, seq![o]);
            assert(s0[ii].queue.push(o) =~= s0[ii].queue + seq![o]);
            assert(total_remaining(seq![o]) == o.remaining()) by {
                assert(seq![o].drop_first() =~= Seq::<OrderV>::empty());
                assert(total_remaining(Seq::<OrderV>::empty()) == 0);
            }
        }
    } else {
        // no level at this price: one is created at its sorted position
        let mut orders: Vec<Order> = Vec::new();
        orders.push(order);
        let level = Level { price: orders[0].price, orders };
        let ghost lv = level@;
        levels.insert(i, level);
        proof {
            assert(lv.queue =~= seq![o]);
            let s1 = levels_view(levels@);
            assert(s1 =~= s0.take(ii) + seq![lv] + s0.skip(ii));
            lemma_flat_app(s0.take(ii) + seq![lv], s0.skip(ii));
            lemma_flat_app(s0.take(ii), seq![lv]);
            assert(flat(seq![lv]) =~= seq![o]) by {
                assert(seq![lv].drop_first() =~= Seq::<LevelV>::empty());
                assert(flat(Seq::<LevelV>::empty()) =~= Seq::<OrderV>::empty());
            }
            let k = flat(s0.take(ii)).len() as int;
            assert(f0.take(k) =~= flat(s0.take(ii)));
            assert(f0.skip(k) =~= flat(s0.skip(ii)));
            assert(flat(s1) =~= f0.take(k) + seq![o] + f0.skip(k));
            // every level from position i on is strictly worse than the order
            assert forall|a: int| 0 <= a < s0.skip(ii).len() implies better_price(
                side,
                o.price,
                (#[trigger] s0.skip(ii)[a]).price,
            ) by {
                assert(s0.skip(ii)[a] == s0[a + ii]);
                assert(!better_price(side, s0[ii].price, o.price));
                assert(s0[ii].price != o.price);
                if a > 0 {
                    assert(better_price(side, s0[ii].price, s0[a + ii].price));
                }
            }
            lemma_flat_price_pred(side, s0.skip(ii), |x: int| better_price(side, o.price, x));
            assert forall|j: int| 0 <= j < k implies !better_price(
                side,
                o.price,
                (#[trigger] f0[j]).price,
            ) by {
                assert(f0[j] == flat(s0.take(ii))[j]);
            }
            assert forall|j: int| k <= j < f0.len() implies better_price(
                side,
                o.price,
                (#[trigger] f0[j]).price,
            ) by {
                assert(f0[j] == flat(s0.skip(ii))[j - k]);
            }
            assert(rested_at(side, f0, flat(s1), o, k));
            // the side stays well formed
            assert forall|a: int| 0 <= a < s1.len() implies level_wf(side, #[trigger] s1[a]) by {
                if a < ii {
                    assert(s1[a] == s0[a]);
                } else if a == ii {
                    assert(s1[a] == lv);
                    assert forall|j: int| 0 <= j < lv.queue.len() implies resting_ok(
                        #[trigger] lv.queue[j],
                    ) && lv.queue[j].price == lv.price && lv.queue[j].side == side by {
                        assert(lv.queue[j] == o);
                    }
                } else {
                    assert(s1[a] == s0[a - 1]);
                }
            }
            assert forall|a: int, b: int| 0 <= a < b < s1.len() implies better_price(
                side,
                s1[a].price,
                s1[b].price,
            ) by {
                if b < ii {
                    assert(s1[a] == s0[a] && s1[b] == s0[b]);
                } else if b == ii {
                    assert(s1[a] == s0[a]);
                } else if a == ii {
                    assert(s1[b] == s0[b - 1]);
                    assert(better_price(side, o.price, s0[b - 1].price));
                } else if a < ii {
                    assert(s1[a] == s0[a] && s1[b] == s0[b - 1]);
                } else {
                    assert(s1[a] == s0[a - 1] && s1[b] == s0[b - 1]);
                }
            }
            // the total grows by exactly the order's unfilled quantity
            lemma_total_app(flat(s0.take(ii)) + seq![o], flat(s0.skip(ii)));
            lemma_total_app(flat(s0.take(ii)), seq![o]);
            lemma_total_app(flat(s0.take(ii)), flat(s0.skip(ii)));
            assert(total_remaining(seq![o]) == o.remaining()) by {
                assert(seq![o].drop_first() =~= Seq::<OrderV>::empty());
                assert(total_remaining(Seq::<OrderV>::empty()) == 0);
            }
        }
    }
}

/// The position of the first order with `order_id` in a level's queue.
fn find_in_queue(orders: &Vec<Order>, order_id: u64) -> (r: Option<usize>)
    ensures
        ({
            match r {
                Option::Some(j) => {
                    &&& (j as int) < orders@.len()
                    &&& orders@[j as int]@.id == order_id as int
                    &&& forall|jj: int|
                        0 <= jj < j as int ==> (#[trigger] orders@[jj]@).id != order_id as int
                },
                Option::None => forall|jj: int|
                    0 <= jj < orders@.len() ==> (#[trigger] orders@[jj]@).id != order_id as int,
            }
        }),
{
    let mut j: usize = 0;
    while j < orders.len()
        invariant
            j <= orders.len(),
            forall|jj: int| 0 <= jj < j as int ==> (#[trigger] orders@[jj]@).id != order_id as int,
        decreases orders.len() - j,
    {
        if orders[j].id == order_id {
            return Some(j);
        }
        j = j + 1;
    }
    None
}

/// Remove the first order carrying `order_id` from one side, dropping its
/// level if that empties it; `None` when the side has no such order.
fn cancel_in(levels: &mut Vec<Level>, order_id: u64, Ghost(side): Ghost<Side>) -> (r: Option<
    Order,
>)
    requires
        side_wf(side, levels_view(old(levels)@)),
    ensures
        side_wf(side, levels_view(final(levels)@)),
        ({
            let f0 = flat(levels_view(old(levels)@));
            let f1 = flat(levels_view(final(levels)@));
            match r {
                Option::Some(o) => {
                    &&& has_order(f0, order_id as int)
                    &&& 0 <= first_idx(f0, order_id as int) < f0.len()
                    &&& o@ == f0[first_idx(f0, order_id as int)]
                    &&& f1 == f0.remove(first_idx(f0, order_id as int))
                    &&& total_remaining(f1) == total_remaining(f0) - o@.remaining()
                },
                Option::None => {
                    &&& !has_order(f0, order_id as int)
                    &&& final(levels)@ == old(levels)@
                },
            }
        }),
{
    let ghost s0 = levels_view(levels@);
    let ghost f0 = flat(s0);
    let ghost id = order_id as int;
    let mut i: usize = 0;
    while i < levels.len()
        invariant
            i <= levels.len(),
            side_wf(side, s0),
            levels@ == old(levels)@,
            levels_view(levels@) == s0,
            s0 == levels_view(old(levels)@),
            id == order_id as int,
            f0 == flat(s0),
            forall|a: int| 0 <= a < i as int ==> !has_order((#[trigger] s0[a]).queue, id),
        decreases levels.len() - i,
    {
        let found = find_in_queue(&levels[i].orders, order_id);
        if let Some(j) = found {
            let ghost ii = i as int;
            let ghost jj = j as int;
            proof {
                assert(s0[ii] == levels@[ii]@);
                assert(s0[ii].queue == orders_view(levels@[ii].orders@));
                assert(s0[ii].queue[jj] == levels@[ii].orders@[jj]@);
                assert(s0[ii].queue[jj].id == order_id as int);
                assert forall|jj2: int| 0 <= jj2 < jj implies (#[trigger] s0[ii].queue[jj2]).id
                    != order_id as int by {
                    assert(s0[ii].queue[jj2] == levels@[ii].orders@[jj2]@);
                }
            }
            let mut level = levels.remove(i);
            let o = level.orders.remove(j);
            proof {
                assert(orders_view(level.orders@) =~= s0[ii].queue.remove(jj));
            }
            let emptied = level.orders.len() == 0;
            if !emptied {
                let ghost lv = level@;
                levels.insert(i, level);
                proof {
                    assert(levels_view(levels@) =~= s0.update(
                        ii,
                        LevelV { price: s0[ii].price, queue: s0[ii].queue.remove(jj) },
                    ));
                }
            } else {
                proof {
                    assert(levels_view(levels@) =~= s0.remove(ii));
                }
            }
            proof {
                assert(o@ == s0[ii].queue[jj]);
                lemma_cancel_found(side, s0, levels_view(levels@), ii, jj, id);
            }
            return Some(o);
        }
        proof {
            if has_order(s0[i as int].queue, id) {
                let j = choose|j: int|
                    0 <= j < s0[i as int].queue.len() && (#[trigger] s0[i as int].queue[j]).id
                        == id;
                assert(s0[i as int].queue[j] == levels@[i as int].orders@[j]@);
            }
        }
        i = i + 1;
    }
    proof {
        lemma_flat_no_id(s0, id);
    }
    None
}

/// The total unfilled quantity resting at one level.
fn level_total(level: &Level, Ghost(side): Ghost<Side>) -> (q: u64)
    requires
        level_wf(side, level@),
        total_remaining(level@.queue) <= u64::MAX,
    ensures
        q as int == total_remaining(level@.queue),
{
    let ghost qq = level@.queue;
    let mut sum: u64 = 0;
    let mut j: usize = 0;
    while j < level.orders.len()
        invariant
            j <= level.orders.len(),
            level_wf(side, level@),
            qq == level@.queue,
            total_remaining(qq) <= u64::MAX,
            sum as int == total_remaining(qq.take(j as int)),
        decreases level.orders.len() - j,
    {
        let ghost ji = j as int;
        proof {
            assert(qq[ji] == level.orders@[ji]@);
            assert(resting_ok(qq[ji]));
            assert(qq =~= qq.take(ji) + qq.skip(ji));
            lemma_total_app(qq.take(ji), qq.skip(ji));
            assert(qq.skip(ji) =~= seq![qq[ji]] + qq.skip(ji + 1));
            lemma_total_app(seq![qq[ji]], qq.skip(ji + 1));
            assert(total_remaining(seq![qq[ji]]) == qq[ji].remaining()) by {
                assert(seq![qq[ji]].drop_first() =~= Seq::<OrderV>::empty());
                assert(total_remaining(Seq::<OrderV>::empty()) == 0);
            }
            assert forall|b: int| 0 <= b < qq.skip(ji + 1).len() implies (#[trigger] qq.skip(
                ji + 1,
            )[b]).filled <= qq.skip(ji + 1)[b].quantity by {
                assert(qq.skip(ji + 1)[b] == qq[b + ji + 1]);
            }
            lemma_total_nonneg(qq.skip(ji + 1));
            assert(qq.take(ji + 1) =~= qq.take(ji) + seq![qq[ji]]);
            lemma_total_app(qq.take(ji), seq![qq[ji]]);
        }
        let o_rem = level.orders[j].quantity - level.orders[j].filled;
        sum = sum + o_rem;
        j = j + 1;
    }
    proof {
        assert(qq.take(j as int) =~= qq);
    }
    sum
}

/// One side's depth, level by level in stored (best-first) order.
fn side_depth(levels: &Vec<Level>, Ghost(side): Ghost<Side>) -> (d: Vec<(u64, u64)>)
    requires
        side_wf(side, levels_view(levels@)),
        total_remaining(flat(levels_view(levels@))) <= u64::MAX,
    ensures
        depth_post(levels_view(levels@), d@),
{
    let ghost s0 = levels_view(levels@);
    let mut d: Vec<(u64, u64)> = Vec::new();
    let mut i: usize = 0;
    while i < levels.len()
        invariant
            i <= levels.len(),
            side_wf(side, s0),
            s0 == levels_view(levels@),
            total_remaining(flat(s0)) <= u64::MAX,
            d@.len() == i as int,
            forall|a: int|
                0 <= a < i as int ==> (#[trigger] d@[a]).0 == s0[a].price && d@[a].1
                    == total_remaining(s0[a].queue),
        decreases levels.len() - i,
    {
        let ghost ii = i as int;
        proof {
            assert(s0[ii] == levels@[ii]@);
            assert(level_wf(side, s0[ii]));
            assert(s0 =~= s0.take(ii) + seq![s0[ii]] + s0.skip(ii + 1));
            lemma_flat_app(s0.take(ii) + seq![s0[ii]], s0.skip(ii + 1));
            lemma_flat_app(s0.take(ii), seq![s0[ii]]);
            assert(flat(seq![s0[ii]]) =~= s0[ii].queue) by {
                assert(seq![s0[ii]].drop_first() =~= Seq::<LevelV>::empty());
                assert(flat(Seq::<LevelV>::empty()) =~= Seq::<OrderV>::empty());
            }
            assert(flat(s0) == flat(s0.take(ii)) + s0[ii].queue + flat(s0.skip(ii + 1)));
            lemma_total_app(flat(s0.take(ii)) + s0[ii].queue, flat(s0.skip(ii + 1)));
            lemma_total_app(flat(s0.take(ii)), s0[ii].queue);
            lemma_side_wf_subrange(side, s0, ii);
            lemma_side_wf_subrange(side, s0, ii + 1);
            lemma_flat_total_nonneg(side, s0.take(ii));
            lemma_flat_total_nonneg(side, s0.skip(ii + 1));
        }
        let q = level_total(&levels[i], Ghost(side));
        d.push((levels[i].price, q));
        i = i + 1;
    }
    d
}

impl Orderbook {
    /// Cross an incoming order against the opposing side and rest whatever
    /// is left of it, as [`place_post`] describes: the core matching step.
    pub fn place_order(&mut self, order: Order) -> (trades: Vec<Trade>)
        requires
            old(self).can_place(order@),
        ensures
            final(self)@.wf(),
            place_post(old(self)@, order@, final(self)@, trades_view(trades@)),
    {
        let ghost pre = self@;
        let ghost o = order@;
        match order.side {
            Side::Buy => {
                proof {
                    lemma_flat_total_nonneg(Side::Buy, pre.bids);
                    lemma_flat_total_nonneg(Side::Sell, pre.asks);
                }
                let (trades, rest) = match_incoming(
                    &mut self.sell_orders,
                    order,
                    &mut self.last_trade_id,
                );
                if rest.filled < rest.quantity {
                    insert_resting(&mut self.buy_orders, rest);
                }
                trades
            },
            Side::Sell => {
                proof {
                    lemma_flat_total_nonneg(Side::Buy, pre.bids);
                    lemma_flat_total_nonneg(Side::Sell, pre.asks);
                }
                let (trades, rest) = match_incoming(
                    &mut self.buy_orders,
                    order,
                    &mut self.last_trade_id,
                );
                if rest.filled < rest.quantity {
                    insert_resting(&mut self.sell_orders, rest);
                }
                trades
            },
        }
    }

    /// Remove the order with `order_id` from whichever side queues it
    /// (bids searched first); `None` when the book holds no such order.
    /// No other order moves, and no trade is generated.
    pub fn cancel_order(&mut self, order_id: u64) -> (r: Option<Order>)
        requires
            old(self)@.wf(),
        ensures
            final(self)@.wf(),
            final(self)@.market == old(self)@.market,
            final(self)@.next_trade_id == old(self)@.next_trade_id,
            cancel_post(old(self)@, order_id as int, final(self)@, r),
    {
        let ghost pre = self@;
        proof {
            lemma_flat_resting(Side::Buy, pre.bids);
            lemma_flat_resting(Side::Sell, pre.asks);
            lemma_flat_total_nonneg(Side::Buy, pre.bids);
            lemma_flat_total_nonneg(Side::Sell, pre.asks);
        }
        let r = cancel_in(&mut self.buy_orders, order_id, Ghost(Side::Buy));
        match r {
            Some(o) => Some(o),
            None => cancel_in(&mut self.sell_orders, order_id, Ghost(Side::Sell)),
        }
    }

    /// Per-side depth: for each price level, its price and the total
    /// unfilled quantity resting at it — `(bid levels, ask levels)`, each
    /// side best price first.
    pub fn get_depth(&self) -> (d: (Vec<(u64, u64)>, Vec<(u64, u64)>))
        requires
            self@.wf(),
        ensures
            depth_post(self@.bids, d.0@),
            depth_post(self@.asks, d.1@),
    {
        proof {
            lemma_flat_total_nonneg(Side::Buy, self@.bids);
            lemma_flat_total_nonneg(Side::Sell, self@.asks);
        }
        let bid_depth = side_depth(&self.buy_orders, Ghost(Side::Buy));
        let ask_depth = side_depth(&self.sell_orders, Ghost(Side::Sell));
        (bid_depth, ask_depth)
    }

    /// Dispatch one message to the matching step, a cancellation or a
    /// depth snapshot, and return its typed outcome.
    pub fn process(&mut self, message: OrderbookMessage) -> (r: OrderbookResult)
        requires
            ({
                match message {
                    OrderbookMessage::PlaceOrder(o) => old(self).can_place(o@),
                    _ => old(self)@.wf(),
                }
            }),
        ensures
            final(self)@.wf(),
            ({
                match message {
                    OrderbookMessage::PlaceOrder(o) => match r {
                        OrderbookResult::Trades(ts) => place_post(
                            old(self)@,
                            o@,
                            final(self)@,
                            trades_view(ts@),
                        ),
                        _ => false,
                    },
                    OrderbookMessage::CancelOrder(oid) => match r {
                        OrderbookResult::CancelledOrder(o) => cancel_post(
                            old(self)@,
                            oid as int,
                            final(self)@,
                            Some(o),
                        ) && final(self)@.next_trade_id == old(self)@.next_trade_id
                            && final(self)@.market == old(self)@.market,
                        OrderbookResult::OrderNotFound => cancel_post(
                            old(self)@,
                            oid as int,
                            final(self)@,
                            None,
                        ),
                        _ => false,
                    },
                    OrderbookMessage::GetDepth => match r {
                        OrderbookResult::Depth(d) => final(self)@ == old(self)@ && depth_post(
                            old(self)@.bids,
                            d.0@,
                        ) && depth_post(old(self)@.asks, d.1@),
                        _ => false,
                    },
                }
            }),
    {
        match message {
            OrderbookMessage::PlaceOrder(order) => OrderbookResult::Trades(
                self.place_order(order),
            ),
            OrderbookMessage::CancelOrder(order_id) => match self.cancel_order(order_id) {
                Some(o) => OrderbookResult::CancelledOrder(o),
                None => OrderbookResult::OrderNotFound,
            },
            OrderbookMessage::GetDepth => OrderbookResult::Depth(self.get_depth()),
        }
    }

    /// The market this book serves.
    pub fn market(&self) -> (m: &String)
        ensures
            m@ == self@.market,
    {
        &self.market
    }

    /// The id the next trade of this book will carry.
    pub fn last_trade_id(&self) -> (t: u64)
        ensures
            t as int == self@.next_trade_id,
    {
        self.last_trade_id
    }
}

} // verus!
