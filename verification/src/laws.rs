use crate::ledger::{avail_of, locked_of, spec_lock, UserBalanceV};
use crate::orderbook::{
    crosses, flat, lemma_flat_resting, level_wf, match_rec, side_wf, total_remaining, LevelV,
};
use crate::types::{OrderV, Side, TradeV};
use vstd::prelude::*;

verus! {

/// Book emptiness: in a well-formed book side — and every operation
/// ensures its book stays well formed — a price level exists exactly
/// while orders rest at it: no side ever holds an empty level, and an
/// absent level holds no orders by construction.
pub proof fn lemma_no_empty_levels(side: Side, levels: Seq<LevelV>)
    requires
        side_wf(side, levels),
    ensures
        forall|i: int| 0 <= i < levels.len() ==> (#[trigger] levels[i]).queue.len() > 0,
{
    assert forall|i: int| 0 <= i < levels.len() implies (#[trigger] levels[i]).queue.len() > 0 by {
        assert(level_wf(side, levels[i]));
    }
}

/// What matching assumes of a resting queue: every order still has
/// unfilled quantity.
pub open spec fn makers_wf(makers: Seq<OrderV>) -> bool {
    forall|j: int| 0 <= j < makers.len() ==> (#[trigger] makers[j]).filled < makers[j].quantity
}

/// The total quantity a sequence of trades moved.
pub open spec fn sum_qty(ts: Seq<TradeV>) -> int
    decreases ts.len(),
{
    if ts.len() == 0 {
        0
    } else {
        ts[0].quantity + sum_qty(ts.drop_first())
    }
}

/// The flattening of any well-formed book side is a well-formed resting
/// queue, so the matching laws below apply to every book the library's
/// operations can produce.
pub proof fn lemma_side_flat_makers_wf(side: Side, levels: Seq<LevelV>)
    requires
        side_wf(side, levels),
    ensures
        makers_wf(flat(levels)),
{
    lemma_flat_resting(side, levels);
}

/// Price-time priority: matching consumes the resting queue strictly from
/// the front. The `i`-th trade is against the `i`-th resting order — so an
/// order never fills ahead of one queued before it — trade ids advance by
/// one from `next_id`, every fully consumed maker is a prefix, and at most
/// the first surviving maker is touched (partially filled, in place).
pub proof fn lemma_price_time_priority(makers: Seq<OrderV>, taker: OrderV, next_id: int)
    requires
        makers_wf(makers),
        taker.fill_ok(),
    ensures
        ({
            let r = match_rec(makers, taker, next_id);
            let n = makers.len() - r.makers.len();
            &&& 0 <= n <= makers.len()
            &&& n <= r.trades.len() <= n + 1
            &&& r.trades.len() <= makers.len()
            &&& forall|i: int|
                0 <= i < r.trades.len() ==> (#[trigger] r.trades[i]).maker_order_id == makers[i].id
                    && r.trades[i].price == makers[i].price && r.trades[i].id == next_id + i
            &&& forall|i: int|
                0 <= i < n ==> (#[trigger] r.trades[i]).quantity == makers[i].remaining()
            &&& forall|i: int| 1 <= i < r.makers.len() ==> (#[trigger] r.makers[i]) == makers[n + i]
            &&& (r.makers.len() > 0 && r.trades.len() == n + 1 ==> r.makers[0]
                == makers[n].with_filled(makers[n].filled + r.trades[n as int].quantity))
            &&& (r.makers.len() > 0 && r.trades.len() == n ==> r.makers[0] == makers[n])
        }),
    decreases makers.len(),
{
    let r = match_rec(makers, taker, next_id);
    if makers.len() == 0 || !crosses(taker.side, taker.price, makers[0].price) || taker.filled
        == taker.quantity {
    } else {
        let m = makers[0];
        let q = vstd::math::min(taker.remaining(), m.remaining());
        let taker2 = taker.with_filled(taker.filled + q);
        let m2 = m.with_filled(m.filled + q);
        if m2.filled == m2.quantity {
            let rest = makers.drop_first();
            assert(makers_wf(rest)) by {
                assert forall|j: int| 0 <= j < rest.len() implies (#[trigger] rest[j]).filled
                    < rest[j].quantity by {
                    assert(rest[j] == makers[j + 1]);
                }
            }
            lemma_price_time_priority(rest, taker2, next_id + 1);
            let rr = match_rec(rest, taker2, next_id + 1);
            let n1 = rest.len() - rr.makers.len();
            let n = makers.len() - r.makers.len();
            assert(n == n1 + 1);
            assert forall|i: int|
                0 <= i < r.trades.len() implies (#[trigger] r.trades[i]).maker_order_id
                == makers[i].id && r.trades[i].price == makers[i].price && r.trades[i].id == next_id
                + i by {
                if i > 0 {
                    assert(r.trades[i] == rr.trades[i - 1]);
                    assert(rest[i - 1] == makers[i]);
                }
            }
            assert forall|i: int| 0 <= i < n implies (#[trigger] r.trades[i]).quantity
                == makers[i].remaining() by {
                if i > 0 {
                    assert(r.trades[i] == rr.trades[i - 1]);
                    assert(rest[i - 1] == makers[i]);
                }
            }
            assert forall|i: int| 1 <= i < r.makers.len() implies (#[trigger] r.makers[i])
                == makers[n + i] by {
                assert(r.makers[i] == rr.makers[i]);
                assert(rr.makers[i] == rest[n1 + i]);
                assert(rest[n1 + i] == makers[n1 + i + 1]);
            }
            if r.makers.len() > 0 {
                assert(rest[n1] == makers[n]);
                if r.trades.len() == n + 1 {
                    assert(rr.trades.len() == n1 + 1);
                    assert(r.trades[n as int] == rr.trades[n1 as int]);
                }
            }
        } else {
            let n = makers.len() - r.makers.len();
            assert(r.makers.len() == makers.len());
            assert(n == 0);
            assert(r.makers[0] == m2);
            assert forall|i: int| 1 <= i < r.makers.len() implies (#[trigger] r.makers[i])
                == makers[n + i] by {
                assert(r.makers[i] == makers[i]);
            }
        }
    }
}

/// Price improvement / no worse than quote: every trade is priced at the
/// resting order's level (see [`lemma_price_time_priority`]), and that
/// price always satisfies the incoming order's limit — a buy never pays
/// above its limit, a sell never receives below it. Each trade names the
/// incoming order as its taker.
pub proof fn lemma_no_worse_than_quote(makers: Seq<OrderV>, taker: OrderV, next_id: int)
    ensures
        ({
            let r = match_rec(makers, taker, next_id);
            forall|i: int|
                0 <= i < r.trades.len() ==> crosses(
                    taker.side,
                    taker.price,
                    (#[trigger] r.trades[i]).price,
                ) && r.trades[i].taker_order_id == taker.id
        }),
    decreases makers.len(),
{
    let r = match_rec(makers, taker, next_id);
    if makers.len() == 0 || !crosses(taker.side, taker.price, makers[0].price) || taker.filled
        == taker.quantity {
    } else {
        let m = makers[0];
        let q = vstd::math::min(taker.remaining(), m.remaining());
        let taker2 = taker.with_filled(taker.filled + q);
        let m2 = m.with_filled(m.filled + q);
        if m2.filled == m2.quantity {
            lemma_no_worse_than_quote(makers.drop_first(), taker2, next_id + 1);
            let rr = match_rec(makers.drop_first(), taker2, next_id + 1);
            assert forall|i: int| 0 <= i < r.trades.len() implies crosses(
                taker.side,
                taker.price,
                (#[trigger] r.trades[i]).price,
            ) && r.trades[i].taker_order_id == taker.id by {
                if i > 0 {
                    assert(r.trades[i] == rr.trades[i - 1]);
                }
            }
        }
    }
}

/// Fill conservation: a fill never decreases and never exceeds the
/// order's quantity — on either side of a match. The taker's fill grows by
/// exactly the total traded quantity, the resting side's unfilled total
/// shrinks by the same amount, no trade is empty, and the trade counter
/// advances by exactly the number of trades.
pub proof fn lemma_fill_conservation(makers: Seq<OrderV>, taker: OrderV, next_id: int)
    requires
        makers_wf(makers),
        taker.fill_ok(),
    ensures
        ({
            let r = match_rec(makers, taker, next_id);
            &&& taker.filled <= r.taker.filled <= taker.quantity
            &&& r.taker == taker.with_filled(r.taker.filled)
            &&& r.taker.filled - taker.filled == sum_qty(r.trades)
            &&& total_remaining(makers) - total_remaining(r.makers) == sum_qty(r.trades)
            &&& makers_wf(r.makers)
            &&& forall|i: int| 0 <= i < r.trades.len() ==> (#[trigger] r.trades[i]).quantity > 0
            &&& r.next_trade_id == next_id + r.trades.len()
        }),
    decreases makers.len(),
{
    let r = match_rec(makers, taker, next_id);
    if makers.len() == 0 || !crosses(taker.side, taker.price, makers[0].price) || taker.filled
        == taker.quantity {
    } else {
        let m = makers[0];
        let q = vstd::math::min(taker.remaining(), m.remaining());
        let taker2 = taker.with_filled(taker.filled + q);
        let m2 = m.with_filled(m.filled + q);
        assert(q > 0);
        if m2.filled == m2.quantity {
            let rest = makers.drop_first();
            assert(makers_wf(rest)) by {
                assert forall|j: int| 0 <= j < rest.len() implies (#[trigger] rest[j]).filled
                    < rest[j].quantity by {
                    assert(rest[j] == makers[j + 1]);
                }
            }
            lemma_fill_conservation(rest, taker2, next_id + 1);
            let rr = match_rec(rest, taker2, next_id + 1);
            assert(sum_qty(r.trades) == q + sum_qty(rr.trades)) by {
                assert(r.trades.drop_first() =~= rr.trades);
            }
            assert(total_remaining(makers) == m.remaining() + total_remaining(rest));
            assert forall|i: int| 0 <= i < r.trades.len() implies (#[trigger] r.trades[i]).quantity
                > 0 by {
                if i > 0 {
                    assert(r.trades[i] == rr.trades[i - 1]);
                }
            }
        } else {
            assert(q == taker.remaining());
            assert(sum_qty(r.trades) == q) by {
                assert(r.trades.drop_first() =~= Seq::<TradeV>::empty());
                assert(sum_qty(Seq::<TradeV>::empty()) == 0);
            }
            assert(total_remaining(r.makers) == total_remaining(makers) - q) by {
                assert(r.makers.drop_first() =~= makers.drop_first());
                assert(r.makers[0] == m2);
                assert(total_remaining(makers) == m.remaining() + total_remaining(
                    makers.drop_first(),
                ));
                assert(total_remaining(r.makers) == m2.remaining() + total_remaining(
                    r.makers.drop_first(),
                ));
            }
            assert(makers_wf(r.makers)) by {
                assert forall|j: int| 0 <= j < r.makers.len() implies (#[trigger] r.makers[j]).filled
                    < r.makers[j].quantity by {
                    if j > 0 {
                        assert(r.makers[j] == makers[j]);
                    }
                }
            }
        }
    }
}

/// Escrow atomicity: an escrow attempt is all or nothing. A rejected
/// attempt leaves every balance as it was; a successful one moves exactly
/// the required amount from the user's available balance to their locked
/// balance — never more than was available — so `available + locked` for
/// the touched user/asset is conserved, and no other user's or asset's
/// balances move in either case.
pub proof fn lemma_escrow_atomicity(
    l: Map<Seq<char>, UserBalanceV>,
    user: Seq<char>,
    asset: Seq<char>,
    required: int,
)
    ensures
        ({
            let ok = spec_lock(l, user, asset, required).0;
            let l2 = spec_lock(l, user, asset, required).1;
            &&& (ok ==> avail_of(l2, user, asset) == avail_of(l, user, asset) - required)
            &&& (ok ==> locked_of(l2, user, asset) == locked_of(l, user, asset) + required)
            &&& (ok ==> required <= avail_of(l, user, asset))
            &&& (ok ==> avail_of(l2, user, asset) + locked_of(l2, user, asset) == avail_of(
                l,
                user,
                asset,
            ) + locked_of(l, user, asset))
            &&& (!ok ==> avail_of(l2, user, asset) == avail_of(l, user, asset) && locked_of(
                l2,
                user,
                asset,
            ) == locked_of(l, user, asset))
            &&& forall|u: Seq<char>, a: Seq<char>|
                u != user || a != asset ==> #[trigger] avail_of(l2, u, a) == avail_of(l, u, a)
                    && locked_of(l2, u, a) == locked_of(l, u, a)
        }),
{
    let ok = spec_lock(l, user, asset, required).0;
    let l2 = spec_lock(l, user, asset, required).1;
    assert forall|u: Seq<char>, a: Seq<char>| u != user || a != asset implies #[trigger] avail_of(
        l2,
        u,
        a,
    ) == avail_of(l, u, a) && locked_of(l2, u, a) == locked_of(l, u, a) by {
        if u == user {
            assert(a != asset);
        }
    }
}

} // verus!

