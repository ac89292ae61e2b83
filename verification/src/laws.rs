//! The laws of the matching engine, each stated over the mathematical
//! model and proved for every input: volume conservation, the trade
//! pricing rule, and price-time priority.

use vstd::prelude::*;
use crate::book::{Side, LevelModel, TradeModel};
use crate::matching::{
    crosses, match_rec, consume_head, sum_volumes, queue_volume, crossable_volume,
    levels_consumed, lemma_match_rec_consumed, levels_consumed_at, queue_consumed_at,
    valid_pos, order_at, side_ids_unique, has_id,
};

verus! {

/// Some level of `ls` quotes exactly `p`.
pub open spec fn has_price(ls: Seq<LevelModel>, p: u64) -> bool {
    exists|i: int| 0 <= i < ls.len() && #[trigger] ls[i].price == p
}

/// The trade is well priced for an incoming order on `side` with limit
/// `price` from `taker`, matched against the resting side `opp`: its
/// price is the price of a resting level that the order crosses — the
/// resting side quotes, the taker takes — its volume is positive, and
/// the taker stands on its own side of the trade.
pub open spec fn trade_priced(
    t: TradeModel,
    opp: Seq<LevelModel>,
    side: Side,
    price: u64,
    taker: Seq<char>,
) -> bool {
    &&& has_price(opp, t.price)
    &&& crosses(side, price, t.price)
    &&& t.volume > 0
    &&& (side == Side::Bid ==> t.buyer == taker)
    &&& (side == Side::Offer ==> t.seller == taker)
}

/// A queue's volume is never negative.
pub proof fn lemma_queue_volume_nonneg(orders: Seq<crate::book::OrderModel>)
    ensures
        queue_volume(orders) >= 0,
    decreases orders.len(),
{
    if orders.len() > 0 {
        lemma_queue_volume_nonneg(orders.drop_first());
    }
}

/// The crossable volume is never negative.
pub proof fn lemma_crossable_volume_nonneg(opp: Seq<LevelModel>, side: Side, price: u64)
    ensures
        crossable_volume(opp, side, price) >= 0,
    decreases opp.len(),
{
    if opp.len() > 0 {
        lemma_queue_volume_nonneg(opp[0].orders);
        lemma_crossable_volume_nonneg(opp.drop_first(), side, price);
    }
}

/// Taking `v` crossable units from the head of a crossing best level
/// reduces the crossable volume by exactly `v`.
proof fn lemma_consume_head_crossable(opp: Seq<LevelModel>, side: Side, price: u64, v: u64)
    requires
        opp.len() > 0,
        opp[0].orders.len() > 0,
        crosses(side, price, opp[0].price),
        0 < v <= opp[0].orders[0].quantity,
    ensures
        crossable_volume(consume_head(opp, v), side, price)
            == crossable_volume(opp, side, price) - v,
{
    let res = consume_head(opp, v);
    let q = opp[0].orders;
    if v < q[0].quantity {
        let q2 = res[0].orders;
        assert(q2.drop_first() =~= q.drop_first());
        assert(res.drop_first() =~= opp.drop_first());
        assert(queue_volume(q2) == q2[0].quantity + queue_volume(q2.drop_first()));
        assert(queue_volume(q) == q[0].quantity + queue_volume(q.drop_first()));
    } else if q.len() > 1 {
        assert(res[0].orders =~= q.drop_first());
        assert(res.drop_first() =~= opp.drop_first());
        assert(queue_volume(q) == q[0].quantity + queue_volume(q.drop_first()));
    } else {
        assert(res =~= opp.drop_first());
        assert(q.drop_first().len() == 0);
        assert(queue_volume(q) == q[0].quantity + queue_volume(q.drop_first()));
    }
}

/// Volume conservation: across one matching run, the traded volume plus
/// the incoming order's remaining quantity equals its initial quantity,
/// and the traded volume never exceeds the opposing volume that the
/// order could cross.
pub proof fn law_volume_conservation(
    opp: Seq<LevelModel>,
    side: Side,
    price: u64,
    qty: u64,
    taker: Seq<char>,
)
    ensures
        sum_volumes(match_rec(opp, side, price, qty, taker).trades)
            + match_rec(opp, side, price, qty, taker).remaining == qty,
        sum_volumes(match_rec(opp, side, price, qty, taker).trades)
            <= crossable_volume(opp, side, price),
    decreases
            opp.len(),
            (if opp.len() > 0 { opp[0].orders.len() } else { 0 }),
            qty,
{
    lemma_crossable_volume_nonneg(opp, side, price);
    if qty == 0 || opp.len() == 0 || !crosses(side, price, opp[0].price)
        || opp[0].orders.len() == 0 || opp[0].orders[0].quantity == 0 {
    } else {
        let head = opp[0].orders[0];
        let v: u64 = if qty < head.quantity { qty } else { head.quantity };
        let ch = consume_head(opp, v);
        law_volume_conservation(ch, side, price, (qty - v) as u64, taker);
        lemma_consume_head_crossable(opp, side, price, v);
        let m = match_rec(opp, side, price, qty, taker);
        let rest = match_rec(ch, side, price, (qty - v) as u64, taker);
        assert(m.trades.drop_first() =~= rest.trades);
        assert(sum_volumes(m.trades) == v + sum_volumes(rest.trades));
    }
}

/// Every price quoted by `consume_head`'s result was quoted before.
proof fn lemma_consume_head_prices(opp: Seq<LevelModel>, v: u64, p: u64)
    requires
        opp.len() > 0,
        has_price(consume_head(opp, v), p),
    ensures
        has_price(opp, p),
{
    let res = consume_head(opp, v);
    let i = choose|i: int| 0 <= i < res.len() && #[trigger] res[i].price == p;
    if v < opp[0].orders[0].quantity || opp[0].orders.len() > 1 {
        assert(opp[i].price == p);
    } else {
        assert(opp[i + 1].price == p);
    }
}

/// The trade pricing rule: every trade emitted by one matching run is
/// priced at a resting level of the opposing side as it stood before the
/// run, a level the incoming order crosses; its volume is positive, and
/// the incoming participant stands as buyer on a bid and as seller on an
/// offer.
pub proof fn law_trade_pricing(
    opp: Seq<LevelModel>,
    side: Side,
    price: u64,
    qty: u64,
    taker: Seq<char>,
)
    ensures
        forall|i: int| 0 <= i < match_rec(opp, side, price, qty, taker).trades.len()
            ==> trade_priced(
                #[trigger] match_rec(opp, side, price, qty, taker).trades[i],
                opp,
                side,
                price,
                taker,
            ),
    decreases
            opp.len(),
            (if opp.len() > 0 { opp[0].orders.len() } else { 0 }),
            qty,
{
    if qty == 0 || opp.len() == 0 || !crosses(side, price, opp[0].price)
        || opp[0].orders.len() == 0 || opp[0].orders[0].quantity == 0 {
    } else {
        let head = opp[0].orders[0];
        let v: u64 = if qty < head.quantity { qty } else { head.quantity };
        let ch = consume_head(opp, v);
        law_trade_pricing(ch, side, price, (qty - v) as u64, taker);
        let m = match_rec(opp, side, price, qty, taker);
        let rest = match_rec(ch, side, price, (qty - v) as u64, taker);
        assert forall|i: int| 0 <= i < m.trades.len()
            implies trade_priced(#[trigger] m.trades[i], opp, side, price, taker) by {
            if i == 0 {
                assert(m.trades[0].price == opp[0].price);
                assert(has_price(opp, opp[0].price));
            } else {
                assert(m.trades[i] == rest.trades[i - 1]);
                assert(trade_priced(rest.trades[i - 1], ch, side, price, taker));
                lemma_consume_head_prices(opp, v, rest.trades[i - 1].price);
            }
        }
    }
}

/// Price-time priority: one matching run consumes the opposing side best
/// level first and, within a level, strictly in arrival order from the
/// head of the queue. What remains is a suffix of the original levels,
/// whose first surviving level is itself a suffix of its original queue
/// with at most the first surviving order's quantity reduced — so an
/// order is never filled before every order with better price, or equal
/// price and earlier arrival, is fully consumed.
pub proof fn law_price_time_priority(
    opp: Seq<LevelModel>,
    side: Side,
    price: u64,
    qty: u64,
    taker: Seq<char>,
)
    ensures
        levels_consumed(match_rec(opp, side, price, qty, taker).levels, opp),
{
    lemma_match_rec_consumed(opp, side, price, qty, taker);
}

/// An order with this id rests in the side with exactly this remaining
/// quantity.
pub open spec fn rests_with_quantity(ls: Seq<LevelModel>, id: u64, q: u64) -> bool {
    exists|l: int, o: int| valid_pos(ls, l, o) && #[trigger] order_at(ls, l, o).id == id
        && order_at(ls, l, o).quantity == q
}

/// Time priority in its two-order form: when two orders rest at the same
/// price and the earlier arrival — the one nearer the head of the queue —
/// still rests after a matching run, then the later one was not touched
/// at all: it still rests with its full quantity. Matching therefore
/// always serves the smaller arrival sequence first; this holds for every
/// book in which ids are unique, hence for all interleavings of
/// submissions.
pub proof fn law_time_priority_two_orders(
    res: Seq<LevelModel>,
    orig: Seq<LevelModel>,
    l: int,
    o1: int,
    o2: int,
)
    requires
        side_ids_unique(orig),
        levels_consumed(res, orig),
        valid_pos(orig, l, o1),
        valid_pos(orig, l, o2),
        o1 < o2,
        has_id(res, order_at(orig, l, o1).id),
    ensures
        rests_with_quantity(res, order_at(orig, l, o2).id, order_at(orig, l, o2).quantity),
{
    let a = order_at(orig, l, o1).id;
    let k = choose|k: int| levels_consumed_at(res, orig, k);
    let (x, y): (int, int) = choose|x: int, y: int|
        valid_pos(res, x, y) && #[trigger] order_at(res, x, y).id == a;
    if x > 0 {
        assert(res[x] == orig[k + x]);
        assert(order_at(res, x, y) == order_at(orig, k + x, y));
        assert(valid_pos(orig, k + x, y));
        // Ids are unique, so the surviving copy of the earlier order is
        // the earlier order itself.
        assert(k + x == l && y == o1);
        assert(order_at(res, x, o2) == order_at(orig, l, o2));
        assert(valid_pos(res, x, o2) && order_at(res, x, o2).id == order_at(orig, l, o2).id
            && order_at(res, x, o2).quantity == order_at(orig, l, o2).quantity);
    } else {
        let j = choose|j: int| queue_consumed_at(res[0].orders, orig[k].orders, j);
        if y > 0 {
            assert(res[0].orders[y] == orig[k].orders[j + y]);
        }
        assert(order_at(res, 0, y).id == order_at(orig, k, j + y).id);
        assert(valid_pos(orig, k, j + y));
        assert(k == l && j + y == o1);
        // The later order sits strictly behind the consumed prefix, so it
        // survives unchanged.
        assert(o2 - j > 0);
        assert(res[0].orders[o2 - j] == orig[k].orders[o2]);
        assert(valid_pos(res, 0, o2 - j)
            && order_at(res, 0, o2 - j).id == order_at(orig, l, o2).id
            && order_at(res, 0, o2 - j).quantity == order_at(orig, l, o2).quantity);
    }
}

} // verus!
