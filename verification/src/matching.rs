//! The mathematical model of the book and of the matching algorithm:
//! well-formedness of a side, the crossing rule, the recursive matching
//! function that the engine implements, and the specifications of
//! insertion and removal of resting orders.

use vstd::prelude::*;
use crate::book::{Side, OrderModel, LevelModel, TradeModel, OrderStatus};

verus! {

/// `a` is a strictly more aggressive price than `b` on `side`: higher for
/// bids, lower for offers.
pub open spec fn price_better(side: Side, a: u64, b: u64) -> bool {
    match side {
        Side::Bid => a > b,
        Side::Offer => a < b,
    }
}

/// An incoming order on `side` with limit `incoming` crosses a resting
/// level priced `resting` on the opposite side.
pub open spec fn crosses(side: Side, incoming: u64, resting: u64) -> bool {
    match side {
        Side::Bid => incoming >= resting,
        Side::Offer => incoming <= resting,
    }
}

/// The order resting at position (`l`, `o`) of a side.
pub open spec fn order_at(ls: Seq<LevelModel>, l: int, o: int) -> OrderModel {
    ls[l].orders[o]
}

/// (`l`, `o`) names a resting order of `ls`.
pub open spec fn valid_pos(ls: Seq<LevelModel>, l: int, o: int) -> bool {
    0 <= l < ls.len() && 0 <= o < ls[l].orders.len()
}

/// Some order with this id rests in `ls`.
pub open spec fn has_id(ls: Seq<LevelModel>, id: u64) -> bool {
    exists|l: int, o: int| valid_pos(ls, l, o) && #[trigger] order_at(ls, l, o).id == id
}

/// A price level's queue is well formed: non-empty, every remaining
/// quantity positive, and strictly increasing arrival sequences — earliest
/// arrival at the head, so the head is always the time-priority winner.
pub open spec fn queue_wf(orders: Seq<OrderModel>) -> bool {
    &&& orders.len() > 0
    &&& forall|i: int| 0 <= i < orders.len() ==> (#[trigger] orders[i]).quantity > 0
    &&& forall|i: int, j: int| 0 <= i < j < orders.len()
        ==> #[trigger] orders[i].sequence < #[trigger] orders[j].sequence
}

/// The levels of a side are strictly ordered most-aggressive-first.
pub open spec fn levels_sorted(side: Side, ls: Seq<LevelModel>) -> bool {
    forall|i: int, j: int| 0 <= i < j < ls.len()
        ==> price_better(side, #[trigger] ls[i].price, #[trigger] ls[j].price)
}

/// One side of the book is well formed: sorted best-first, positive
/// prices, and every level's queue well formed.
pub open spec fn side_wf(side: Side, ls: Seq<LevelModel>) -> bool {
    &&& levels_sorted(side, ls)
    &&& forall|i: int| 0 <= i < ls.len() ==> (#[trigger] ls[i]).price > 0 && queue_wf(ls[i].orders)
}

/// No id rests twice within one side.
pub open spec fn side_ids_unique(ls: Seq<LevelModel>) -> bool {
    forall|l1: int, o1: int, l2: int, o2: int|
        #![trigger order_at(ls, l1, o1).id, order_at(ls, l2, o2).id]
        valid_pos(ls, l1, o1) && valid_pos(ls, l2, o2) && (l1 != l2 || o1 != o2)
            ==> order_at(ls, l1, o1).id != order_at(ls, l2, o2).id
}

/// No id rests on both sides at once.
pub open spec fn sides_ids_disjoint(a: Seq<LevelModel>, b: Seq<LevelModel>) -> bool {
    forall|l1: int, o1: int, l2: int, o2: int|
        #![trigger order_at(a, l1, o1).id, order_at(b, l2, o2).id]
        valid_pos(a, l1, o1) && valid_pos(b, l2, o2)
            ==> order_at(a, l1, o1).id != order_at(b, l2, o2).id
}

/// Every arrival sequence on the side is below `bound`.
pub open spec fn sequences_below(ls: Seq<LevelModel>, bound: u64) -> bool {
    forall|l: int, o: int| valid_pos(ls, l, o) ==> #[trigger] order_at(ls, l, o).sequence < bound
}

/// The book is not crossed: whenever both sides are non-empty, the best
/// bid is strictly below the best offer.
pub open spec fn no_cross(bids: Seq<LevelModel>, offers: Seq<LevelModel>) -> bool {
    bids.len() > 0 && offers.len() > 0 ==> bids[0].price < offers[0].price
}

/// The sum of the remaining quantities of a queue.
pub open spec fn queue_volume(orders: Seq<OrderModel>) -> int
    decreases orders.len(),
{
    if orders.len() == 0 {
        0
    } else {
        orders[0].quantity + queue_volume(orders.drop_first())
    }
}

/// The sum of the volumes of a sequence of trades.
pub open spec fn sum_volumes(ts: Seq<TradeModel>) -> int
    decreases ts.len(),
{
    if ts.len() == 0 {
        0
    } else {
        ts[0].volume + sum_volumes(ts.drop_first())
    }
}

/// The total resting volume an incoming order on `side` with limit `price`
/// could possibly execute against: the volume of every opposing level it
/// crosses.
pub open spec fn crossable_volume(opp: Seq<LevelModel>, side: Side, price: u64) -> int
    decreases opp.len(),
{
    if opp.len() == 0 {
        0
    } else {
        (if crosses(side, price, opp[0].price) {
            queue_volume(opp[0].orders)
        } else {
            0
        }) + crossable_volume(opp.drop_first(), side, price)
    }
}

/// The total volume resting at exactly `price` on a side; zero when no
/// level has that price.
pub open spec fn volume_at(ls: Seq<LevelModel>, price: u64) -> int
    decreases ls.len(),
{
    if ls.len() == 0 {
        0
    } else if ls[0].price == price {
        queue_volume(ls[0].orders)
    } else {
        volume_at(ls.drop_first(), price)
    }
}

/// Levels whose price is not `price` contribute nothing to `volume_at`.
pub proof fn lemma_volume_at_skip(ls: Seq<LevelModel>, price: u64, i: int)
    requires
        0 <= i <= ls.len(),
        forall|j: int| 0 <= j < i ==> #[trigger] ls[j].price != price,
    ensures
        volume_at(ls, price) == volume_at(ls.skip(i), price),
    decreases i,
{
    if i > 0 {
        assert(ls.skip(0) =~= ls);
        lemma_volume_at_skip(ls.drop_first(), price, i - 1);
        assert(ls.drop_first().skip(i - 1) =~= ls.skip(i));
    } else {
        assert(ls.skip(0) =~= ls);
    }
}

/// A queue's volume is bounded by its length times the largest quantity.
pub proof fn lemma_queue_volume_bound(orders: Seq<OrderModel>)
    ensures
        0 <= queue_volume(orders) <= orders.len() * 0xffff_ffff_ffff_ffff,
    decreases orders.len(),
{
    if orders.len() > 0 {
        lemma_queue_volume_bound(orders.drop_first());
    }
}

/// What one round of matching leaves behind: the trades emitted, the
/// opposing side as it remains, and the incoming order's remaining
/// quantity.
#[verifier::ext_equal]
pub ghost struct MatchOutcome {
    pub trades: Seq<TradeModel>,
    pub levels: Seq<LevelModel>,
    pub remaining: u64,
}

/// The opposing side after `v` units are taken from the head order of the
/// best level: the head's quantity is reduced, or the head is removed when
/// exactly exhausted, and the level itself is removed when its queue
/// empties.
pub open spec fn consume_head(opp: Seq<LevelModel>, v: u64) -> Seq<LevelModel> {
    let lvl = opp[0];
    let head = lvl.orders[0];
    if v < head.quantity {
        opp.update(0, LevelModel {
            price: lvl.price,
            orders: lvl.orders.update(0, OrderModel {
                id: head.id,
                participant: head.participant,
                quantity: (head.quantity - v) as u64,
                sequence: head.sequence,
            }),
        })
    } else if lvl.orders.len() > 1 {
        opp.update(0, LevelModel { price: lvl.price, orders: lvl.orders.drop_first() })
    } else {
        opp.drop_first()
    }
}

/// The matching algorithm. An incoming order on `side` with limit `price`
/// and quantity `qty`, owned by `taker`, walks the opposing side `opp`
/// best level first, head of queue first. Each step trades
/// `min(qty, head.quantity)` at the resting level's price, with the bid
/// side's participant as buyer and the offer side's as seller, and stops
/// as soon as the order is exhausted or the best opposing level no longer
/// crosses.
pub open spec fn match_rec(
    opp: Seq<LevelModel>,
    side: Side,
    price: u64,
    qty: u64,
    taker: Seq<char>,
) -> MatchOutcome
    decreases
            opp.len(),
            (if opp.len() > 0 { opp[0].orders.len() } else { 0 }),
            qty,
{
    if qty == 0 || opp.len() == 0 || !crosses(side, price, opp[0].price)
        || opp[0].orders.len() == 0 || opp[0].orders[0].quantity == 0 {
        MatchOutcome { trades: Seq::<TradeModel>::empty(), levels: opp, remaining: qty }
    } else {
        let head = opp[0].orders[0];
        let v: u64 = if qty < head.quantity { qty } else { head.quantity };
        let t = TradeModel {
            buyer: if side == Side::Bid { taker } else { head.participant },
            seller: if side == Side::Bid { head.participant } else { taker },
            price: opp[0].price,
            volume: v,
        };
        let rest = match_rec(consume_head(opp, v), side, price, (qty - v) as u64, taker);
        MatchOutcome {
            trades: seq![t] + rest.trades,
            levels: rest.levels,
            remaining: rest.remaining,
        }
    }
}

/// Taking `v` units from the head of the best level keeps a side well
/// formed.
pub proof fn lemma_consume_head_wf(opp: Seq<LevelModel>, side: Side, v: u64)
    requires
        side_wf(side, opp),
        opp.len() > 0,
        opp[0].orders.len() > 0,
        0 < v <= opp[0].orders[0].quantity,
    ensures
        side_wf(side, consume_head(opp, v)),
{
    let res = consume_head(opp, v);
    let head = opp[0].orders[0];
    if v < head.quantity {
        assert(queue_wf(res[0].orders));
    } else if opp[0].orders.len() > 1 {
        let q = opp[0].orders;
        assert forall|i: int| 0 <= i < q.drop_first().len()
            implies (#[trigger] q.drop_first()[i]).quantity > 0 by {
            assert(q.drop_first()[i] == q[i + 1]);
        }
        assert forall|i: int, j: int| 0 <= i < j < q.drop_first().len()
            implies #[trigger] q.drop_first()[i].sequence
                < #[trigger] q.drop_first()[j].sequence by {
            assert(q.drop_first()[i] == q[i + 1]);
            assert(q.drop_first()[j] == q[j + 1]);
        }
        assert(queue_wf(res[0].orders));
    } else {
        assert forall|i: int| 0 <= i < res.len()
            implies (#[trigger] res[i]).price > 0 && queue_wf(res[i].orders) by {
            assert(res[i] == opp[i + 1]);
        }
        assert(levels_sorted(side, res)) by {
            assert forall|i: int, j: int| 0 <= i < j < res.len()
                implies price_better(side, #[trigger] res[i].price, #[trigger] res[j].price) by {
                assert(res[i] == opp[i + 1]);
                assert(res[j] == opp[j + 1]);
            }
        }
    }
}

/// The status a submission ends with, given its initial quantity and what
/// remains after matching.
pub open spec fn status_of(initial: u64, remaining: u64) -> OrderStatus {
    if remaining == 0 {
        OrderStatus::Filled
    } else if remaining == initial {
        OrderStatus::FullyRested
    } else {
        OrderStatus::PartiallyRested { remaining_quantity: remaining }
    }
}

/// An outcome with `ts` prepended to its trades; what a partially run
/// matching loop has already emitted.
pub open spec fn with_prefix(ts: Seq<TradeModel>, m: MatchOutcome) -> MatchOutcome {
    MatchOutcome { trades: ts + m.trades, levels: m.levels, remaining: m.remaining }
}

/// How many levels of `ls` are strictly more aggressive than `price`.
pub open spec fn count_better(ls: Seq<LevelModel>, side: Side, price: u64) -> int
    decreases ls.len(),
{
    if ls.len() == 0 {
        0
    } else if price_better(side, ls[0].price, price) {
        1 + count_better(ls.drop_first(), side, price)
    } else {
        0
    }
}

/// The side after a resting order `o` is inserted at `price`: appended to
/// the tail of the existing level at that price, or placed in a fresh
/// level at the position its price ranks, keeping the side sorted.
pub open spec fn insert_order_spec(
    ls: Seq<LevelModel>,
    side: Side,
    price: u64,
    o: OrderModel,
) -> Seq<LevelModel> {
    let i = count_better(ls, side, price);
    if i < ls.len() && ls[i].price == price {
        ls.update(i, LevelModel { price, orders: ls[i].orders.push(o) })
    } else {
        ls.insert(i, LevelModel { price, orders: seq![o] })
    }
}

/// `count_better` counts exactly the sorted prefix of levels that outrank
/// `price`.
pub proof fn lemma_count_better_props(ls: Seq<LevelModel>, side: Side, price: u64)
    requires
        levels_sorted(side, ls),
    ensures
        0 <= count_better(ls, side, price) <= ls.len(),
        forall|j: int| 0 <= j < count_better(ls, side, price)
            ==> price_better(side, #[trigger] ls[j].price, price),
        forall|j: int| count_better(ls, side, price) <= j < ls.len()
            ==> !price_better(side, #[trigger] ls[j].price, price),
    decreases ls.len(),
{
    if ls.len() > 0 {
        let d = ls.drop_first();
        assert forall|i: int, j: int| 0 <= i < j < d.len()
            implies price_better(side, #[trigger] d[i].price, #[trigger] d[j].price) by {
            assert(d[i] == ls[i + 1]);
            assert(d[j] == ls[j + 1]);
        }
        lemma_count_better_props(d, side, price);
        if price_better(side, ls[0].price, price) {
            assert forall|j: int| 0 < j < count_better(ls, side, price)
                implies price_better(side, #[trigger] ls[j].price, price) by {
                assert(d[j - 1] == ls[j]);
            }
            assert forall|j: int| count_better(ls, side, price) <= j < ls.len()
                implies !price_better(side, #[trigger] ls[j].price, price) by {
                assert(d[j - 1] == ls[j]);
            }
        } else {
            assert forall|j: int| 0 <= j < ls.len()
                implies !price_better(side, #[trigger] ls[j].price, price) by {
                if j > 0 {
                    assert(price_better(side, ls[0].price, ls[j].price));
                }
            }
        }
    }
}

/// A loop that walked past exactly the levels that outrank `price` has
/// counted `count_better`.
pub proof fn lemma_count_better_prefix(ls: Seq<LevelModel>, side: Side, price: u64, i: int)
    requires
        0 <= i <= ls.len(),
        forall|j: int| 0 <= j < i ==> price_better(side, #[trigger] ls[j].price, price),
        i == ls.len() || !price_better(side, ls[i].price, price),
    ensures
        count_better(ls, side, price) == i,
    decreases i,
{
    let d = ls.drop_first();
    if i == 0 {
    } else {
        assert(price_better(side, ls[0].price, price));
        assert forall|j: int| 0 <= j < i - 1
            implies price_better(side, #[trigger] d[j].price, price) by {
            assert(d[j] == ls[j + 1]);
        }
        if i - 1 < d.len() {
            assert(d[i - 1] == ls[i]);
        }
        lemma_count_better_prefix(d, side, price, i - 1);
    }
}

/// Inserting a positive-quantity order with a fresh, newest sequence at a
/// positive price keeps a side well formed.
pub proof fn lemma_insert_order_wf(ls: Seq<LevelModel>, side: Side, price: u64, o: OrderModel)
    requires
        side_wf(side, ls),
        price > 0,
        o.quantity > 0,
        forall|l: int, o2: int| valid_pos(ls, l, o2)
            ==> #[trigger] order_at(ls, l, o2).sequence < o.sequence,
    ensures
        side_wf(side, insert_order_spec(ls, side, price, o)),
{
    lemma_count_better_props(ls, side, price);
    let i = count_better(ls, side, price);
    let res = insert_order_spec(ls, side, price, o);
    if i < ls.len() && ls[i].price == price {
        let q = ls[i].orders.push(o);
        assert(queue_wf(q)) by {
            assert forall|a: int| 0 <= a < q.len() implies (#[trigger] q[a]).quantity > 0 by {
                if a < ls[i].orders.len() {
                    assert(q[a] == ls[i].orders[a]);
                } else {
                    assert(q[a] == o);
                }
            }
            assert forall|a: int, b: int| 0 <= a < b < q.len()
                implies #[trigger] q[a].sequence < #[trigger] q[b].sequence by {
                if b < ls[i].orders.len() {
                    assert(q[a] == ls[i].orders[a] && q[b] == ls[i].orders[b]);
                } else {
                    assert(q[b] == o);
                    assert(valid_pos(ls, i, a));
                    assert(order_at(ls, i, a) == q[a]);
                }
            }
        }
        assert forall|x: int, y: int| 0 <= x < y < res.len()
            implies price_better(side, #[trigger] res[x].price, #[trigger] res[y].price) by {
            assert(res[x].price == ls[x].price);
            assert(res[y].price == ls[y].price);
        }
    } else {
        if i < ls.len() {
            assert(!price_better(side, ls[i].price, price));
            assert(ls[i].price != price);
            assert(price_better(side, price, ls[i].price));
        }
        assert forall|x: int, y: int| 0 <= x < y < res.len()
            implies price_better(side, #[trigger] res[x].price, #[trigger] res[y].price) by {
            if x < i {
                assert(res[x] == ls[x]);
            } else if x == i {
                assert(res[x].price == price);
            } else {
                assert(res[x] == ls[x - 1]);
            }
            if y < i {
                assert(res[y] == ls[y]);
            } else if y == i {
                assert(res[y].price == price);
            } else {
                assert(res[y] == ls[y - 1]);
            }
            if y > i && x < i {
                assert(price_better(side, ls[x].price, price));
                assert(price_better(side, price, ls[y - 1].price));
            }
        }
        assert forall|x: int| 0 <= x < res.len()
            implies (#[trigger] res[x]).price > 0 && queue_wf(res[x].orders) by {
            if x < i {
                assert(res[x] == ls[x]);
            } else if x == i {
                assert(res[x].orders == seq![o]);
                assert(res[x].orders[0] == o);
            } else {
                assert(res[x] == ls[x - 1]);
            }
        }
    }
}

/// Order (`l`, `o`) of `res` descends from order (`l2`, `o2`) of `orig`:
/// the same order, with at most its quantity reduced.
pub open spec fn descendant_pos(
    res: Seq<LevelModel>,
    orig: Seq<LevelModel>,
    l: int,
    o: int,
    l2: int,
    o2: int,
) -> bool {
    &&& valid_pos(res, l, o)
    &&& valid_pos(orig, l2, o2)
    &&& same_order_except_quantity(order_at(res, l, o), order_at(orig, l2, o2))
    &&& order_at(res, l, o).quantity <= order_at(orig, l2, o2).quantity
}

/// Order (`l`, `o`) of `res` descends from some order of `orig`.
pub open spec fn descends_at(res: Seq<LevelModel>, orig: Seq<LevelModel>, l: int, o: int) -> bool {
    exists|l2: int, o2: int| #[trigger] descendant_pos(res, orig, l, o, l2, o2)
}

/// Every order of `res` descends from some order of `orig`: no order was
/// invented or rewritten, only quantities reduced and orders removed.
pub open spec fn orders_descend(res: Seq<LevelModel>, orig: Seq<LevelModel>) -> bool {
    forall|l: int, o: int| #[trigger] valid_pos(res, l, o) ==> descends_at(res, orig, l, o)
}

/// Descent is reflexive.
pub proof fn lemma_orders_descend_refl(ls: Seq<LevelModel>)
    ensures
        orders_descend(ls, ls),
{
    assert forall|l: int, o: int| #[trigger] valid_pos(ls, l, o)
        implies descends_at(ls, ls, l, o) by {
        assert(descendant_pos(ls, ls, l, o, l, o));
    }
}

/// Descent is transitive.
pub proof fn lemma_orders_descend_trans(
    c: Seq<LevelModel>,
    b: Seq<LevelModel>,
    a: Seq<LevelModel>,
)
    requires
        orders_descend(c, b),
        orders_descend(b, a),
    ensures
        orders_descend(c, a),
{
    assert forall|l: int, o: int| #[trigger] valid_pos(c, l, o)
        implies descends_at(c, a, l, o) by {
        let (x, y): (int, int) = choose|x: int, y: int| #[trigger] descendant_pos(c, b, l, o, x, y);
        assert(valid_pos(b, x, y));
        let (u, w): (int, int) = choose|u: int, w: int| #[trigger] descendant_pos(b, a, x, y, u, w);
        assert(descendant_pos(c, a, l, o, u, w));
    }
}

/// Every order surviving `consume_head` descends from the original side.
pub proof fn lemma_consume_head_orders(opp: Seq<LevelModel>, v: u64)
    requires
        opp.len() > 0,
        opp[0].orders.len() > 0,
    ensures
        orders_descend(consume_head(opp, v), opp),
{
    let res = consume_head(opp, v);
    assert forall|l: int, o: int| #[trigger] valid_pos(res, l, o)
        implies descends_at(res, opp, l, o) by {
        if v < opp[0].orders[0].quantity {
            assert(descendant_pos(res, opp, l, o, l, o));
        } else if opp[0].orders.len() > 1 {
            if l == 0 {
                assert(order_at(res, 0, o) == order_at(opp, 0, o + 1));
                assert(descendant_pos(res, opp, l, o, 0, o + 1));
            } else {
                assert(descendant_pos(res, opp, l, o, l, o));
            }
        } else {
            assert(order_at(res, l, o) == order_at(opp, l + 1, o));
            assert(descendant_pos(res, opp, l, o, l + 1, o));
        }
    }
}

/// Descent carries sequence bounds down.
pub proof fn lemma_descend_sequences_below(
    res: Seq<LevelModel>,
    orig: Seq<LevelModel>,
    bound: u64,
)
    requires
        orders_descend(res, orig),
        sequences_below(orig, bound),
    ensures
        sequences_below(res, bound),
{
    assert forall|l: int, o: int| valid_pos(res, l, o)
        implies #[trigger] order_at(res, l, o).sequence < bound by {
        let (x, y): (int, int) = choose|x: int, y: int|
            #[trigger] descendant_pos(res, orig, l, o, x, y);
        assert(order_at(orig, x, y).sequence < bound);
    }
}

/// Descent cannot introduce an id that the original side did not hold.
pub proof fn lemma_descend_no_id(res: Seq<LevelModel>, orig: Seq<LevelModel>, id: u64)
    requires
        orders_descend(res, orig),
        !has_id(orig, id),
    ensures
        !has_id(res, id),
{
    assert forall|l: int, o: int| valid_pos(res, l, o)
        implies #[trigger] order_at(res, l, o).id != id by {
        let (x, y): (int, int) = choose|x: int, y: int|
            #[trigger] descendant_pos(res, orig, l, o, x, y);
        assert(order_at(orig, x, y).id != id);
    }
}

/// Descent on the right keeps two sides id-disjoint.
pub proof fn lemma_descend_disjoint_right(
    a: Seq<LevelModel>,
    res: Seq<LevelModel>,
    orig: Seq<LevelModel>,
)
    requires
        orders_descend(res, orig),
        sides_ids_disjoint(a, orig),
    ensures
        sides_ids_disjoint(a, res),
{
    assert forall|l1: int, o1: int, l2: int, o2: int|
        valid_pos(a, l1, o1) && valid_pos(res, l2, o2)
        implies #[trigger] order_at(a, l1, o1).id != #[trigger] order_at(res, l2, o2).id by {
        let (x, y): (int, int) = choose|x: int, y: int|
            #[trigger] descendant_pos(res, orig, l2, o2, x, y);
        assert(order_at(a, l1, o1).id != order_at(orig, x, y).id);
    }
}

/// `consume_head` keeps ids unique: surviving positions map one-to-one
/// into original positions.
pub proof fn lemma_consume_head_unique(opp: Seq<LevelModel>, v: u64)
    requires
        opp.len() > 0,
        opp[0].orders.len() > 0,
        side_ids_unique(opp),
    ensures
        side_ids_unique(consume_head(opp, v)),
{
    let res = consume_head(opp, v);
    assert forall|l1: int, o1: int, l2: int, o2: int|
        valid_pos(res, l1, o1) && valid_pos(res, l2, o2) && (l1 != l2 || o1 != o2)
        implies #[trigger] order_at(res, l1, o1).id != #[trigger] order_at(res, l2, o2).id by {
        if v < opp[0].orders[0].quantity {
            assert(order_at(res, l1, o1).id == order_at(opp, l1, o1).id);
            assert(order_at(res, l2, o2).id == order_at(opp, l2, o2).id);
            assert(valid_pos(opp, l1, o1) && valid_pos(opp, l2, o2));
            assert(order_at(opp, l1, o1).id != order_at(opp, l2, o2).id);
        } else if opp[0].orders.len() > 1 {
            let p1 = if l1 == 0 { o1 + 1 } else { o1 };
            let p2 = if l2 == 0 { o2 + 1 } else { o2 };
            assert(order_at(res, l1, o1) == order_at(opp, l1, p1));
            assert(order_at(res, l2, o2) == order_at(opp, l2, p2));
            assert(valid_pos(opp, l1, p1) && valid_pos(opp, l2, p2));
            assert(order_at(opp, l1, p1).id != order_at(opp, l2, p2).id);
        } else {
            assert(order_at(res, l1, o1) == order_at(opp, l1 + 1, o1));
            assert(order_at(res, l2, o2) == order_at(opp, l2 + 1, o2));
            assert(valid_pos(opp, l1 + 1, o1) && valid_pos(opp, l2 + 1, o2));
            assert(order_at(opp, l1 + 1, o1).id != order_at(opp, l2 + 1, o2).id);
        }
    }
}

/// Every order left by matching descends from an order of the original
/// opposing side: matching never invents, reorders or rewrites resting
/// orders, it only reduces quantities and removes filled orders.
pub proof fn lemma_match_rec_orders(
    opp: Seq<LevelModel>,
    side: Side,
    price: u64,
    qty: u64,
    taker: Seq<char>,
)
    ensures
        orders_descend(match_rec(opp, side, price, qty, taker).levels, opp),
    decreases
            opp.len(),
            (if opp.len() > 0 { opp[0].orders.len() } else { 0 }),
            qty,
{
    if qty == 0 || opp.len() == 0 || !crosses(side, price, opp[0].price)
        || opp[0].orders.len() == 0 || opp[0].orders[0].quantity == 0 {
        lemma_orders_descend_refl(opp);
    } else {
        let head = opp[0].orders[0];
        let v: u64 = if qty < head.quantity { qty } else { head.quantity };
        let ch = consume_head(opp, v);
        lemma_match_rec_orders(ch, side, price, (qty - v) as u64, taker);
        lemma_consume_head_orders(opp, v);
        lemma_orders_descend_trans(match_rec(opp, side, price, qty, taker).levels, ch, opp);
    }
}

/// Matching keeps ids unique on the opposing side.
pub proof fn lemma_match_rec_unique(
    opp: Seq<LevelModel>,
    side: Side,
    price: u64,
    qty: u64,
    taker: Seq<char>,
)
    requires
        side_ids_unique(opp),
    ensures
        side_ids_unique(match_rec(opp, side, price, qty, taker).levels),
    decreases
            opp.len(),
            (if opp.len() > 0 { opp[0].orders.len() } else { 0 }),
            qty,
{
    if qty == 0 || opp.len() == 0 || !crosses(side, price, opp[0].price)
        || opp[0].orders.len() == 0 || opp[0].orders[0].quantity == 0 {
    } else {
        let head = opp[0].orders[0];
        let v: u64 = if qty < head.quantity { qty } else { head.quantity };
        lemma_consume_head_unique(opp, v);
        lemma_match_rec_unique(consume_head(opp, v), side, price, (qty - v) as u64, taker);
    }
}

/// Front consumption of queues is transitive.
pub proof fn lemma_queue_consumed_trans(
    c: Seq<OrderModel>,
    b: Seq<OrderModel>,
    a: Seq<OrderModel>,
)
    requires
        queue_consumed(c, b),
        queue_consumed(b, a),
    ensures
        queue_consumed(c, a),
{
    let j1 = choose|j1: int| queue_consumed_at(c, b, j1);
    let j2 = choose|j2: int| queue_consumed_at(b, a, j2);
    assert forall|i: int| 0 < i < c.len() implies c[i] == a[j2 + j1 + i] by {
        assert(c[i] == b[j1 + i]);
        assert(b[j1 + i] == a[j2 + j1 + i]);
    }
    if c.len() > 0 {
        if j1 > 0 {
            assert(b[j1] == a[j2 + j1]);
        } else {
            assert(same_order_except_quantity(b[0], a[j2]) && b[0].quantity <= a[j2].quantity);
        }
        assert(same_order_except_quantity(c[0], a[j2 + j1])
            && c[0].quantity <= a[j2 + j1].quantity);
    }
    assert(queue_consumed_at(c, a, j1 + j2));
}

/// Best-first consumption of a side is transitive.
pub proof fn lemma_levels_consumed_trans(
    c: Seq<LevelModel>,
    b: Seq<LevelModel>,
    a: Seq<LevelModel>,
)
    requires
        levels_consumed(c, b),
        levels_consumed(b, a),
    ensures
        levels_consumed(c, a),
{
    let k1 = choose|k1: int| levels_consumed_at(c, b, k1);
    let k2 = choose|k2: int| levels_consumed_at(b, a, k2);
    assert forall|i: int| 0 < i < c.len() implies c[i] == a[k2 + k1 + i] by {
        assert(c[i] == b[k1 + i]);
        assert(b[k1 + i] == a[k2 + k1 + i]);
    }
    if c.len() > 0 {
        if k1 > 0 {
            assert(b[k1] == a[k2 + k1]);
            assert(queue_consumed(c[0].orders, b[k1].orders));
            assert(c[0].price == a[k2 + k1].price);
        } else {
            assert(c[0].price == b[0].price && b[0].price == a[k2].price);
            lemma_queue_consumed_trans(c[0].orders, b[0].orders, a[k2].orders);
        }
    }
    assert(levels_consumed_at(c, a, k1 + k2));
}

/// A side is trivially a consumption of itself.
pub proof fn lemma_levels_consumed_refl(ls: Seq<LevelModel>)
    ensures
        levels_consumed(ls, ls),
{
    if ls.len() > 0 {
        assert(queue_consumed_at(ls[0].orders, ls[0].orders, 0));
        assert(queue_consumed(ls[0].orders, ls[0].orders));
    }
    assert(levels_consumed_at(ls, ls, 0));
}

/// One `consume_head` step is a consumption.
pub proof fn lemma_consume_head_consumed(opp: Seq<LevelModel>, v: u64)
    requires
        opp.len() > 0,
        opp[0].orders.len() > 0,
        0 < v <= opp[0].orders[0].quantity,
    ensures
        levels_consumed(consume_head(opp, v), opp),
{
    let res = consume_head(opp, v);
    if v < opp[0].orders[0].quantity {
        assert(queue_consumed_at(res[0].orders, opp[0].orders, 0));
        assert(queue_consumed(res[0].orders, opp[0].orders));
        assert(levels_consumed_at(res, opp, 0));
    } else if opp[0].orders.len() > 1 {
        assert forall|i: int| 0 < i < res[0].orders.len()
            implies res[0].orders[i] == opp[0].orders[1 + i] by {}
        assert(queue_consumed_at(res[0].orders, opp[0].orders, 1));
        assert(queue_consumed(res[0].orders, opp[0].orders));
        assert(levels_consumed_at(res, opp, 0));
    } else {
        assert forall|i: int| 0 < i < res.len() implies res[i] == opp[1 + i] by {}
        if res.len() > 0 {
            assert(res[0] == opp[1]);
            assert(queue_consumed_at(res[0].orders, opp[1].orders, 0));
            assert(queue_consumed(res[0].orders, opp[1].orders));
        }
        assert(levels_consumed_at(res, opp, 1));
    }
}

/// Matching consumes the opposing side best level first and, within a
/// level, strictly from the head of the queue.
pub proof fn lemma_match_rec_consumed(
    opp: Seq<LevelModel>,
    side: Side,
    price: u64,
    qty: u64,
    taker: Seq<char>,
)
    ensures
        levels_consumed(match_rec(opp, side, price, qty, taker).levels, opp),
    decreases
            opp.len(),
            (if opp.len() > 0 { opp[0].orders.len() } else { 0 }),
            qty,
{
    if qty == 0 || opp.len() == 0 || !crosses(side, price, opp[0].price)
        || opp[0].orders.len() == 0 || opp[0].orders[0].quantity == 0 {
        lemma_levels_consumed_refl(opp);
    } else {
        let head = opp[0].orders[0];
        let v: u64 = if qty < head.quantity { qty } else { head.quantity };
        let ch = consume_head(opp, v);
        lemma_match_rec_consumed(ch, side, price, (qty - v) as u64, taker);
        lemma_consume_head_consumed(opp, v);
        lemma_levels_consumed_trans(match_rec(opp, side, price, qty, taker).levels, ch, opp);
    }
}

/// What survives consumption of a sorted side never outranks the original
/// best level.
pub proof fn lemma_consumed_best_no_better(
    res: Seq<LevelModel>,
    orig: Seq<LevelModel>,
    side: Side,
)
    requires
        levels_consumed(res, orig),
        levels_sorted(side, orig),
        res.len() > 0,
    ensures
        orig.len() > 0,
        !price_better(side, res[0].price, orig[0].price),
{
    let k = choose|k: int| levels_consumed_at(res, orig, k);
    assert(res[0].price == orig[k].price);
    if k > 0 {
        assert(price_better(side, orig[0].price, orig[k].price));
    }
}

/// Id disjointness of two sides is symmetric.
pub proof fn lemma_disjoint_sym(a: Seq<LevelModel>, b: Seq<LevelModel>)
    requires
        sides_ids_disjoint(a, b),
    ensures
        sides_ids_disjoint(b, a),
{
    assert forall|l1: int, o1: int, l2: int, o2: int|
        valid_pos(b, l1, o1) && valid_pos(a, l2, o2)
        implies #[trigger] order_at(b, l1, o1).id != #[trigger] order_at(a, l2, o2).id by {
        assert(order_at(a, l2, o2).id != order_at(b, l1, o1).id);
    }
}

/// A sequence bound may be weakened.
pub proof fn lemma_sequences_below_weaken(ls: Seq<LevelModel>, b1: u64, b2: u64)
    requires
        sequences_below(ls, b1),
        b1 <= b2,
    ensures
        sequences_below(ls, b2),
{
    assert forall|l: int, o: int| valid_pos(ls, l, o)
        implies #[trigger] order_at(ls, l, o).sequence < b2 by {
        assert(order_at(ls, l, o).sequence < b1);
    }
}

/// After insertion the best level quotes either the inserted price or the
/// unchanged previous best, whichever ranks higher.
pub proof fn lemma_insert_best(ls: Seq<LevelModel>, side: Side, price: u64, o: OrderModel)
    requires
        levels_sorted(side, ls),
    ensures
        insert_order_spec(ls, side, price, o).len() > 0,
        count_better(ls, side, price) == 0
            ==> insert_order_spec(ls, side, price, o)[0].price == price,
        count_better(ls, side, price) > 0
            ==> ls.len() > 0
                && insert_order_spec(ls, side, price, o)[0].price == ls[0].price
                && price_better(side, ls[0].price, price),
{
    lemma_count_better_props(ls, side, price);
}

/// Inserting an order with a fresh id keeps ids unique, keeps the side
/// disjoint from another side not holding that id, and keeps sequence
/// bounds; the id then rests in the side.
pub proof fn lemma_insert_order_ids(
    ls: Seq<LevelModel>,
    side: Side,
    price: u64,
    o: OrderModel,
    other: Seq<LevelModel>,
    bound: u64,
)
    requires
        levels_sorted(side, ls),
        side_ids_unique(ls),
        !has_id(ls, o.id),
        sides_ids_disjoint(ls, other),
        !has_id(other, o.id),
        sequences_below(ls, bound),
        o.sequence < bound,
    ensures
        side_ids_unique(insert_order_spec(ls, side, price, o)),
        sides_ids_disjoint(insert_order_spec(ls, side, price, o), other),
        sequences_below(insert_order_spec(ls, side, price, o), bound),
        has_id(insert_order_spec(ls, side, price, o), o.id),
{
    lemma_count_better_props(ls, side, price);
    let i = count_better(ls, side, price);
    let res = insert_order_spec(ls, side, price, o);
    let merge = i < ls.len() && ls[i].price == price;
    // Map each position of the result to the inserted order or to its
    // original position.
    assert forall|l: int, o2: int| valid_pos(res, l, o2)
        implies (#[trigger] order_at(res, l, o2)) == o
            || (exists|x: int, y: int| valid_pos(ls, x, y)
                && order_at(res, l, o2) == #[trigger] order_at(ls, x, y)
                && pos_map(merge, i, l, o2) == (x, y)) by {
        if merge {
            if l == i && o2 == ls[i].orders.len() {
                assert(order_at(res, l, o2) == o);
            } else {
                assert(valid_pos(ls, l, o2));
                assert(order_at(res, l, o2) == order_at(ls, l, o2));
                assert(pos_map(merge, i, l, o2) == (l, o2));
            }
        } else {
            if l == i {
                assert(order_at(res, l, o2) == o);
            } else if l < i {
                assert(order_at(res, l, o2) == order_at(ls, l, o2));
                assert(pos_map(merge, i, l, o2) == (l, o2));
            } else {
                assert(order_at(res, l, o2) == order_at(ls, l - 1, o2));
                assert(pos_map(merge, i, l, o2) == (l - 1, o2));
            }
        }
    }
    assert forall|l1: int, o1: int, l2: int, o2: int|
        valid_pos(res, l1, o1) && valid_pos(res, l2, o2) && (l1 != l2 || o1 != o2)
        implies #[trigger] order_at(res, l1, o1).id != #[trigger] order_at(res, l2, o2).id by {
        lemma_insert_pos_case(ls, side, price, o, l1, o1);
        lemma_insert_pos_case(ls, side, price, o, l2, o2);
    }
    assert forall|l1: int, o1: int, l2: int, o2: int|
        valid_pos(res, l1, o1) && valid_pos(other, l2, o2)
        implies #[trigger] order_at(res, l1, o1).id != #[trigger] order_at(other, l2, o2).id by {
        lemma_insert_pos_case(ls, side, price, o, l1, o1);
    }
    assert forall|l1: int, o1: int| valid_pos(res, l1, o1)
        implies #[trigger] order_at(res, l1, o1).sequence < bound by {
        lemma_insert_pos_case(ls, side, price, o, l1, o1);
    }
    if merge {
        assert(valid_pos(res, i, ls[i].orders.len() as int));
        assert(order_at(res, i, ls[i].orders.len() as int).id == o.id);
    } else {
        assert(valid_pos(res, i, 0));
        assert(order_at(res, i, 0).id == o.id);
    }
}

/// Where a result position of an insertion came from.
pub open spec fn pos_map(merge: bool, i: int, l: int, o: int) -> (int, int) {
    if merge {
        (l, o)
    } else if l < i {
        (l, o)
    } else {
        (l - 1, o)
    }
}

/// Each position of an inserted side holds either the new order — at the
/// insertion position only — or the original order its position maps to.
pub proof fn lemma_insert_pos_case(
    ls: Seq<LevelModel>,
    side: Side,
    price: u64,
    o: OrderModel,
    l: int,
    o2: int,
)
    requires
        levels_sorted(side, ls),
        valid_pos(insert_order_spec(ls, side, price, o), l, o2),
    ensures
        ({
            let i = count_better(ls, side, price);
            let merge = i < ls.len() && ls[i].price == price;
            if merge && l == i && o2 == ls[i].orders.len() {
                order_at(insert_order_spec(ls, side, price, o), l, o2) == o
            } else if !merge && l == i {
                order_at(insert_order_spec(ls, side, price, o), l, o2) == o && o2 == 0
            } else {
                valid_pos(ls, pos_map(merge, i, l, o2).0, pos_map(merge, i, l, o2).1)
                    && order_at(insert_order_spec(ls, side, price, o), l, o2)
                        == order_at(ls, pos_map(merge, i, l, o2).0, pos_map(merge, i, l, o2).1)
            }
        }),
{
    lemma_count_better_props(ls, side, price);
    let i = count_better(ls, side, price);
    let res = insert_order_spec(ls, side, price, o);
    let merge = i < ls.len() && ls[i].price == price;
    if merge {
        if l == i && o2 < ls[i].orders.len() {
            assert(order_at(res, l, o2) == ls[i].orders.push(o)[o2]);
            assert(ls[i].orders.push(o)[o2] == ls[i].orders[o2]);
        }
    } else {
        if l == i {
            assert(res[l].orders == seq![o]);
        }
    }
}

/// The side after the order at position (`li`, `oi`) is removed; the level
/// goes with it when its queue empties.
pub open spec fn remove_at_spec(ls: Seq<LevelModel>, li: int, oi: int) -> Seq<LevelModel> {
    if ls[li].orders.len() == 1 {
        ls.remove(li)
    } else {
        ls.update(li, LevelModel { price: ls[li].price, orders: ls[li].orders.remove(oi) })
    }
}

/// Removing one resting order keeps a side well formed, leaves only
/// descendants of the original orders, and never makes the best level
/// more aggressive.
pub proof fn lemma_remove_at_wf(ls: Seq<LevelModel>, side: Side, li: int, oi: int)
    requires
        side_wf(side, ls),
        valid_pos(ls, li, oi),
    ensures
        side_wf(side, remove_at_spec(ls, li, oi)),
        orders_descend(remove_at_spec(ls, li, oi), ls),
        remove_at_spec(ls, li, oi).len() > 0
            ==> !price_better(side, remove_at_spec(ls, li, oi)[0].price, ls[0].price),
{
    let res = remove_at_spec(ls, li, oi);
    if ls[li].orders.len() == 1 {
        ls.remove_ensures(li);
        assert forall|x: int| 0 <= x < res.len()
            implies (#[trigger] res[x]).price > 0 && queue_wf(res[x].orders) by {
            if x < li {
                assert(res[x] == ls[x]);
            } else {
                assert(res[x] == ls[x + 1]);
            }
        }
        assert forall|x: int, y: int| 0 <= x < y < res.len()
            implies price_better(side, #[trigger] res[x].price, #[trigger] res[y].price) by {
            let x2 = if x < li { x } else { x + 1 };
            let y2 = if y < li { y } else { y + 1 };
            assert(res[x] == ls[x2]);
            assert(res[y] == ls[y2]);
        }
        assert forall|l: int, o: int| #[trigger] valid_pos(res, l, o)
            implies descends_at(res, ls, l, o) by {
            let l2 = if l < li { l } else { l + 1 };
            assert(res[l] == ls[l2]);
            assert(descendant_pos(res, ls, l, o, l2, o));
        }
        if res.len() > 0 && li == 0 {
            assert(res[0] == ls[1]);
        }
    } else {
        let q = ls[li].orders;
        let q2 = q.remove(oi);
        q.remove_ensures(oi);
        assert(queue_wf(q2)) by {
            assert forall|b: int| 0 <= b < q2.len()
                implies (#[trigger] q2[b]).quantity > 0 by {
                if b < oi {
                    assert(q2[b] == q[b]);
                } else {
                    assert(q2[b] == q[b + 1]);
                }
            }
            assert forall|a: int, b: int| 0 <= a < b < q2.len()
                implies #[trigger] q2[a].sequence < #[trigger] q2[b].sequence by {
                let a2 = if a < oi { a } else { a + 1 };
                let b2 = if b < oi { b } else { b + 1 };
                assert(q2[a] == q[a2]);
                assert(q2[b] == q[b2]);
            }
        }
        assert forall|x: int| 0 <= x < res.len()
            implies (#[trigger] res[x]).price > 0 && queue_wf(res[x].orders) by {
            if x != li {
                assert(res[x] == ls[x]);
            }
        }
        assert forall|x: int, y: int| 0 <= x < y < res.len()
            implies price_better(side, #[trigger] res[x].price, #[trigger] res[y].price) by {
            assert(res[x].price == ls[x].price);
            assert(res[y].price == ls[y].price);
        }
        assert forall|l: int, o: int| #[trigger] valid_pos(res, l, o)
            implies descends_at(res, ls, l, o) by {
            if l != li {
                assert(descendant_pos(res, ls, l, o, l, o));
            } else {
                let o2 = if o < oi { o } else { o + 1 };
                assert(order_at(res, l, o) == q[o2]);
                assert(descendant_pos(res, ls, l, o, l, o2));
            }
        }
    }
}

/// Removing one resting order keeps ids unique, and the removed id — the
/// only order carrying it — no longer rests in the side.
pub proof fn lemma_remove_at_unique(ls: Seq<LevelModel>, li: int, oi: int)
    requires
        side_ids_unique(ls),
        valid_pos(ls, li, oi),
    ensures
        side_ids_unique(remove_at_spec(ls, li, oi)),
        !has_id(remove_at_spec(ls, li, oi), order_at(ls, li, oi).id),
{
    let res = remove_at_spec(ls, li, oi);
    let id = order_at(ls, li, oi).id;
    if ls[li].orders.len() == 1 {
        ls.remove_ensures(li);
        assert forall|l1: int, o1: int, l2: int, o2: int|
            valid_pos(res, l1, o1) && valid_pos(res, l2, o2) && (l1 != l2 || o1 != o2)
            implies #[trigger] order_at(res, l1, o1).id
                != #[trigger] order_at(res, l2, o2).id by {
            let a = if l1 < li { l1 } else { l1 + 1 };
            let b = if l2 < li { l2 } else { l2 + 1 };
            assert(res[l1] == ls[a]);
            assert(res[l2] == ls[b]);
            assert(order_at(res, l1, o1) == order_at(ls, a, o1));
            assert(order_at(res, l2, o2) == order_at(ls, b, o2));
        }
        assert forall|l: int, o: int| valid_pos(res, l, o)
            implies #[trigger] order_at(res, l, o).id != id by {
            let a = if l < li { l } else { l + 1 };
            assert(res[l] == ls[a]);
            assert(order_at(res, l, o) == order_at(ls, a, o));
            assert(a != li || o != oi);
        }
    } else {
        let q = ls[li].orders;
        q.remove_ensures(oi);
        assert forall|l1: int, o1: int, l2: int, o2: int|
            valid_pos(res, l1, o1) && valid_pos(res, l2, o2) && (l1 != l2 || o1 != o2)
            implies #[trigger] order_at(res, l1, o1).id
                != #[trigger] order_at(res, l2, o2).id by {
            let a = if l1 != li || o1 < oi { o1 } else { o1 + 1 };
            let b = if l2 != li || o2 < oi { o2 } else { o2 + 1 };
            assert(order_at(res, l1, o1) == order_at(ls, l1, a));
            assert(order_at(res, l2, o2) == order_at(ls, l2, b));
        }
        assert forall|l: int, o: int| valid_pos(res, l, o)
            implies #[trigger] order_at(res, l, o).id != id by {
            let a = if l != li || o < oi { o } else { o + 1 };
            assert(order_at(res, l, o) == order_at(ls, l, a));
            assert(l != li || a != oi);
        }
    }
}

/// `res` is what is left of the queue `orig` after matching consumed it
/// from the front: a suffix of `orig`, except that the first surviving
/// order may have a reduced (but still positive relation preserved)
/// quantity. Every other field of every surviving order is untouched.
pub open spec fn queue_consumed(res: Seq<OrderModel>, orig: Seq<OrderModel>) -> bool {
    exists|k: int| #[trigger] queue_consumed_at(res, orig, k)
}

/// The witness form of `queue_consumed`: the first `k` orders are gone.
pub open spec fn queue_consumed_at(res: Seq<OrderModel>, orig: Seq<OrderModel>, k: int) -> bool {
    &&& 0 <= k <= orig.len()
    &&& res.len() == orig.len() - k
    &&& forall|i: int| 0 < i < res.len() ==> res[i] == orig[k + i]
    &&& res.len() > 0 ==> same_order_except_quantity(res[0], orig[k])
        && res[0].quantity <= orig[k].quantity
}

/// Two resting orders that differ at most in remaining quantity.
pub open spec fn same_order_except_quantity(a: OrderModel, b: OrderModel) -> bool {
    a.id == b.id && a.participant == b.participant && a.sequence == b.sequence
}

/// `res` is what is left of the side `orig` after matching consumed it
/// best level first: a suffix of `orig`'s levels, except that the first
/// surviving level may itself be a front-consumed version of the
/// corresponding original level. This is price-time priority in
/// structural form: matching never skips a more aggressive level, and
/// within a level never skips an earlier arrival.
pub open spec fn levels_consumed(res: Seq<LevelModel>, orig: Seq<LevelModel>) -> bool {
    exists|k: int| #[trigger] levels_consumed_at(res, orig, k)
}

/// The witness form of `levels_consumed`: the first `k` levels are gone.
pub open spec fn levels_consumed_at(res: Seq<LevelModel>, orig: Seq<LevelModel>, k: int) -> bool {
    &&& 0 <= k <= orig.len()
    &&& res.len() == orig.len() - k
    &&& forall|i: int| 0 < i < res.len() ==> res[i] == orig[k + i]
    &&& res.len() > 0 ==> res[0].price == orig[k].price
        && queue_consumed(res[0].orders, orig[k].orders)
}

} // verus!
