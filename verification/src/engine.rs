//! The matching engine itself: one order book per instrument, with
//! submission, cancellation and the read-only query interface.

use vstd::prelude::*;
use crate::book::{
    Side, Order, Trade, RestingOrder, PriceLevel, OrderStatus, EngineError, OrderModel,
    LevelModel, TradeModel, opposite,
};
use crate::matching::{
    price_better, crosses, order_at, valid_pos, has_id, queue_wf, side_wf,
    side_ids_unique, sides_ids_disjoint, sequences_below, no_cross, queue_volume, sum_volumes,
    crossable_volume, volume_at, lemma_volume_at_skip, lemma_queue_volume_bound, MatchOutcome,
    consume_head, lemma_consume_head_wf, match_rec, with_prefix, count_better, insert_order_spec,
    remove_at_spec, levels_consumed, status_of, lemma_match_rec_orders, lemma_match_rec_unique,
    lemma_match_rec_consumed, lemma_descend_sequences_below, lemma_sequences_below_weaken,
    lemma_descend_no_id, lemma_descend_disjoint_right, lemma_disjoint_sym, lemma_insert_order_wf,
    lemma_insert_order_ids, lemma_insert_best, lemma_consumed_best_no_better,
    lemma_count_better_prefix, lemma_remove_at_wf, lemma_remove_at_unique,
};
use crate::laws::{law_volume_conservation, law_trade_pricing, trade_priced};

verus! {

/// The book `post` is the book `pre` with exactly the resting order at
/// position (`li`, `oi`) of side `s` — the order carrying `id` — removed,
/// everything else untouched.
pub open spec fn cancel_shape(
    pre: MatchingEngine,
    post: MatchingEngine,
    s: Side,
    li: int,
    oi: int,
    id: u64,
) -> bool {
    &&& valid_pos(pre.side_m(s), li, oi)
    &&& order_at(pre.side_m(s), li, oi).id == id
    &&& post.side_m(s) == remove_at_spec(pre.side_m(s), li, oi)
    &&& post.side_m(opposite(s)) == pre.side_m(opposite(s))
}

/// Whether an incoming order on `side` with limit `incoming` crosses a
/// resting price `resting` on the opposite side.
fn crosses_exec(side: Side, incoming: u64, resting: u64) -> (b: bool)
    ensures
        b == crosses(side, incoming, resting),
{
    match side {
        Side::Bid => incoming >= resting,
        Side::Offer => incoming <= resting,
    }
}

/// The matching loop: runs the incoming order against the opposing side
/// until it is exhausted or the best opposing level no longer crosses,
/// returning the emitted trades and the remaining quantity. Implements
/// `match_rec` exactly.
fn fill_against(
    opp: &mut Vec<PriceLevel>,
    side: Side,
    price: u64,
    quantity: u64,
    taker: &String,
) -> (r: (Vec<Trade>, u64))
    requires
        side_wf(opposite(side), old(opp).deep_view()),
    ensures
        side_wf(opposite(side), final(opp).deep_view()),
        (match_rec(old(opp).deep_view(), side, price, quantity, taker@) == MatchOutcome {
            trades: r.0.deep_view(),
            levels: final(opp).deep_view(),
            remaining: r.1,
        }),
        r.1 > 0 ==> final(opp).deep_view().len() == 0
            || !crosses(side, price, final(opp).deep_view()[0].price),
{
    let ghost orig = opp.deep_view();
    let mut trades: Vec<Trade> = Vec::new();
    let mut qty: u64 = quantity;
    proof {
        assert(trades.deep_view() =~= Seq::<TradeModel>::empty());
        assert(match_rec(orig, side, price, quantity, taker@) =~~= with_prefix(
            trades.deep_view(),
            match_rec(opp.deep_view(), side, price, qty, taker@),
        ));
    }
    while qty > 0 && opp.len() > 0 && crosses_exec(side, price, opp[0].price)
        invariant
            side_wf(opposite(side), opp.deep_view()),
            (match_rec(orig, side, price, quantity, taker@) == with_prefix(
                trades.deep_view(),
                match_rec(opp.deep_view(), side, price, qty, taker@),
            )),
        decreases
                opp.deep_view().len(),
                (if opp.deep_view().len() > 0 { opp.deep_view()[0].orders.len() } else { 0 }),
                qty,
    {
        let ghost pre = opp.deep_view();
        let ghost qpre = qty;
        let ghost tpre = trades.deep_view();
        proof {
            assert(pre[0] == opp@[0].deep_view());
            assert(queue_wf(pre[0].orders));
        }
        let mut lvl: PriceLevel = opp.remove(0);
        let mut head: RestingOrder = lvl.orders.remove(0);
        let v: u64 = if qty < head.quantity { qty } else { head.quantity };
        let ghost tm = TradeModel {
            buyer: if side == Side::Bid { taker@ } else { pre[0].orders[0].participant },
            seller: if side == Side::Bid { pre[0].orders[0].participant } else { taker@ },
            price: pre[0].price,
            volume: v,
        };
        let t = Trade {
            buyer: if side == Side::Bid { taker.clone() } else { head.participant.clone() },
            seller: if side == Side::Bid { head.participant.clone() } else { taker.clone() },
            price: lvl.price,
            volume: v,
        };
        proof {
            assert(t.deep_view() =~~= tm);
        }
        trades.push(t);
        qty = qty - v;
        if v < head.quantity {
            head.quantity = head.quantity - v;
            lvl.orders.insert(0, head);
            opp.insert(0, lvl);
        } else if lvl.orders.len() > 0 {
            opp.insert(0, lvl);
        }
        proof {
            assert(opp.deep_view() =~~= consume_head(pre, v));
            lemma_consume_head_wf(pre, opposite(side), v);
            let m2 = match_rec(opp.deep_view(), side, price, qty as u64, taker@);
            assert(match_rec(pre, side, price, qpre, taker@) == with_prefix(seq![tm], m2));
            assert(trades.deep_view() =~= tpre + seq![tm]);
            assert(with_prefix(tpre, with_prefix(seq![tm], m2)) =~~= with_prefix(
                trades.deep_view(),
                m2,
            ));
        }
    }
    proof {
        assert(match_rec(opp.deep_view(), side, price, qty, taker@) == MatchOutcome {
            trades: Seq::<TradeModel>::empty(),
            levels: opp.deep_view(),
            remaining: qty,
        });
        assert(trades.deep_view() + Seq::<TradeModel>::empty() =~= trades.deep_view());
    }
    (trades, qty)
}

/// Whether `a` outranks `b` on `side`.
fn price_better_exec(side: Side, a: u64, b: u64) -> (r: bool)
    ensures
        r == price_better(side, a, b),
{
    match side {
        Side::Bid => a > b,
        Side::Offer => a < b,
    }
}

/// Inserts a resting order into a side at `price`: appended to the tail
/// of the existing level at that price, or placed in a fresh level at the
/// rank of its price. Implements `insert_order_spec` exactly.
fn insert_resting(ls: &mut Vec<PriceLevel>, side: Side, price: u64, order: RestingOrder)
    ensures
        final(ls).deep_view() == insert_order_spec(
            old(ls).deep_view(),
            side,
            price,
            order.deep_view(),
        ),
{
    let ghost lm = ls.deep_view();
    let ghost om = order.deep_view();
    let mut i: usize = 0;
    while i < ls.len() && price_better_exec(side, ls[i].price, price)
        invariant
            i <= ls.len(),
            lm == ls.deep_view(),
            forall|j: int| 0 <= j < i ==> price_better(side, #[trigger] lm[j].price, price),
        decreases ls.len() - i,
    {
        i = i + 1;
    }
    proof {
        lemma_count_better_prefix(lm, side, price, i as int);
    }
    if i < ls.len() && ls[i].price == price {
        let mut lvl = ls.remove(i);
        lvl.orders.push(order);
        ls.insert(i, lvl);
        proof {
            assert(ls.deep_view() =~~= insert_order_spec(lm, side, price, om));
        }
    } else {
        let mut orders: Vec<RestingOrder> = Vec::new();
        orders.push(order);
        ls.insert(i, PriceLevel { price, orders });
        proof {
            assert(ls.deep_view() =~~= insert_order_spec(lm, side, price, om));
        }
    }
}

/// Linear directory lookup: resolves an order id to its exact position
/// (level index, queue index) on a side, or reports that no order on the
/// side carries the id.
fn find_order(ls: &Vec<PriceLevel>, id: u64) -> (r: Option<(usize, usize)>)
    ensures
        match r {
            Some(pos) => valid_pos(ls.deep_view(), pos.0 as int, pos.1 as int)
                && order_at(ls.deep_view(), pos.0 as int, pos.1 as int).id == id,
            None => !has_id(ls.deep_view(), id),
        },
{
    let ghost lm = ls.deep_view();
    let mut l: usize = 0;
    while l < ls.len()
        invariant
            l <= ls.len(),
            lm == ls.deep_view(),
            forall|a: int, b: int| valid_pos(lm, a, b) && a < l
                ==> #[trigger] order_at(lm, a, b).id != id,
        decreases ls.len() - l,
    {
        let mut o: usize = 0;
        while o < ls[l].orders.len()
            invariant
                l < ls.len(),
                lm == ls.deep_view(),
                o <= lm[l as int].orders.len(),
                forall|b: int| 0 <= b < o ==> #[trigger] order_at(lm, l as int, b).id != id,
            decreases lm[l as int].orders.len() - o,
        {
            if ls[l].orders[o].id == id {
                proof {
                    assert(order_at(lm, l as int, o as int).id == id);
                }
                return Some((l, o));
            }
            o = o + 1;
        }
        l = l + 1;
    }
    proof {
        assert forall|a: int, b: int| valid_pos(lm, a, b)
            implies #[trigger] order_at(lm, a, b).id != id by {}
    }
    None
}

/// Removes the resting order at position (`li`, `oi`) of a side, and the
/// level itself when its queue empties. Implements `remove_at_spec`
/// exactly.
fn remove_resting(ls: &mut Vec<PriceLevel>, li: usize, oi: usize)
    requires
        valid_pos(old(ls).deep_view(), li as int, oi as int),
    ensures
        final(ls).deep_view() == remove_at_spec(old(ls).deep_view(), li as int, oi as int),
{
    let ghost lm = ls.deep_view();
    let mut lvl = ls.remove(li);
    let _ = lvl.orders.remove(oi);
    if lvl.orders.len() > 0 {
        ls.insert(li, lvl);
        proof {
            assert(ls.deep_view() =~~= remove_at_spec(lm, li as int, oi as int));
        }
    } else {
        proof {
            assert(ls.deep_view() =~~= remove_at_spec(lm, li as int, oi as int));
        }
    }
}

/// Runs one accepted submission against the two sides: matches against
/// the opposing side, rests any remainder on the order's own side stamped
/// with `seq_num`, and reports the trades and the resulting status.
fn submit_to_sides(
    own: &mut Vec<PriceLevel>,
    opp: &mut Vec<PriceLevel>,
    side: Side,
    order: Order,
    seq_num: u64,
) -> (r: (Vec<Trade>, OrderStatus))
    requires
        side_wf(side, old(own).deep_view()),
        side_wf(opposite(side), old(opp).deep_view()),
        side_ids_unique(old(own).deep_view()),
        side_ids_unique(old(opp).deep_view()),
        sides_ids_disjoint(old(own).deep_view(), old(opp).deep_view()),
        !has_id(old(own).deep_view(), order.id),
        !has_id(old(opp).deep_view(), order.id),
        sequences_below(old(own).deep_view(), seq_num),
        sequences_below(old(opp).deep_view(), seq_num),
        seq_num < u64::MAX,
        order.price > 0,
        order.quantity > 0,
        (old(own).deep_view().len() > 0 && old(opp).deep_view().len() > 0
            ==> !crosses(side, old(own).deep_view()[0].price, old(opp).deep_view()[0].price)),
    ensures
        side_wf(side, final(own).deep_view()),
        side_wf(opposite(side), final(opp).deep_view()),
        side_ids_unique(final(own).deep_view()),
        side_ids_unique(final(opp).deep_view()),
        sides_ids_disjoint(final(own).deep_view(), final(opp).deep_view()),
        sequences_below(final(own).deep_view(), (seq_num + 1) as u64),
        sequences_below(final(opp).deep_view(), (seq_num + 1) as u64),
        (final(own).deep_view().len() > 0 && final(opp).deep_view().len() > 0
            ==> !crosses(side, final(own).deep_view()[0].price, final(opp).deep_view()[0].price)),
        ({
            let m = match_rec(
                old(opp).deep_view(),
                side,
                order.price,
                order.quantity,
                order.participant@,
            );
            &&& r.0.deep_view() == m.trades
            &&& final(opp).deep_view() == m.levels
            &&& final(own).deep_view() == (if m.remaining > 0 {
                insert_order_spec(old(own).deep_view(), side, order.price, (OrderModel {
                    id: order.id,
                    participant: order.participant@,
                    quantity: m.remaining,
                    sequence: seq_num,
                }))
            } else {
                old(own).deep_view()
            })
            &&& r.1 == status_of(order.quantity, m.remaining)
            &&& sum_volumes(m.trades) + m.remaining == order.quantity
            &&& sum_volumes(m.trades)
                <= crossable_volume(old(opp).deep_view(), side, order.price)
            &&& (forall|i: int| 0 <= i < m.trades.len() ==> trade_priced(
                #[trigger] m.trades[i],
                old(opp).deep_view(),
                side,
                order.price,
                order.participant@,
            ))
            &&& levels_consumed(m.levels, old(opp).deep_view())
        }),
{
    let ghost opp0 = opp.deep_view();
    let ghost own0 = own.deep_view();
    let (trades, remaining) = fill_against(
        opp,
        side,
        order.price,
        order.quantity,
        &order.participant,
    );
    proof {
        let m = match_rec(opp0, side, order.price, order.quantity, order.participant@);
        lemma_match_rec_orders(opp0, side, order.price, order.quantity, order.participant@);
        lemma_match_rec_unique(opp0, side, order.price, order.quantity, order.participant@);
        lemma_match_rec_consumed(opp0, side, order.price, order.quantity, order.participant@);
        law_volume_conservation(opp0, side, order.price, order.quantity, order.participant@);
        law_trade_pricing(opp0, side, order.price, order.quantity, order.participant@);
        lemma_descend_sequences_below(m.levels, opp0, seq_num);
        lemma_sequences_below_weaken(m.levels, seq_num, (seq_num + 1) as u64);
        lemma_sequences_below_weaken(own0, seq_num, (seq_num + 1) as u64);
        lemma_descend_no_id(m.levels, opp0, order.id);
        lemma_descend_disjoint_right(own0, m.levels, opp0);
        if m.levels.len() > 0 {
            lemma_consumed_best_no_better(m.levels, opp0, opposite(side));
        }
    }
    if remaining > 0 {
        let status = if remaining == order.quantity {
            OrderStatus::FullyRested
        } else {
            OrderStatus::PartiallyRested { remaining_quantity: remaining }
        };
        let ghost om = OrderModel {
            id: order.id,
            participant: order.participant@,
            quantity: remaining,
            sequence: seq_num,
        };
        proof {
            lemma_insert_order_wf(own0, side, order.price, om);
            lemma_insert_order_ids(
                own0,
                side,
                order.price,
                om,
                opp.deep_view(),
                (seq_num + 1) as u64,
            );
            lemma_insert_best(own0, side, order.price, om);
        }
        let resting = RestingOrder {
            id: order.id,
            participant: order.participant,
            quantity: remaining,
            sequence: seq_num,
        };
        insert_resting(own, side, order.price, resting);
        proof {
            let m = match_rec(opp0, side, order.price, order.quantity, order.participant@);
            let ins = insert_order_spec(own0, side, order.price, om);
            assert(own.deep_view() == ins);
            crate::matching::lemma_count_better_props(own0, side, order.price);
            if own.deep_view().len() > 0 && opp.deep_view().len() > 0 {
                assert(!crosses(side, order.price, m.levels[0].price));
                if count_better(own0, side, order.price) == 0 {
                    assert(ins[0].price == order.price);
                } else {
                    assert(ins[0].price == own0[0].price);
                    assert(!price_better(opposite(side), m.levels[0].price, opp0[0].price));
                    assert(!crosses(side, own0[0].price, opp0[0].price));
                    match side {
                        Side::Bid => {
                            assert(own0[0].price < opp0[0].price);
                            assert(m.levels[0].price >= opp0[0].price);
                        },
                        Side::Offer => {
                            assert(own0[0].price > opp0[0].price);
                            assert(m.levels[0].price <= opp0[0].price);
                        },
                    }
                }
            }
        }
        (trades, status)
    } else {
        proof {
            let m = match_rec(opp0, side, order.price, order.quantity, order.participant@);
            if own.deep_view().len() > 0 && opp.deep_view().len() > 0 {
                assert(own.deep_view() == own0);
                assert(!price_better(opposite(side), m.levels[0].price, opp0[0].price));
                assert(!crosses(side, own0[0].price, opp0[0].price));
                match side {
                    Side::Bid => {
                        assert(own0[0].price < opp0[0].price);
                        assert(m.levels[0].price >= opp0[0].price);
                    },
                    Side::Offer => {
                        assert(own0[0].price > opp0[0].price);
                        assert(m.levels[0].price <= opp0[0].price);
                    },
                }
            }
        }
        (trades, OrderStatus::Filled)
    }
}

/// The order book of one instrument: the bid side (levels sorted by
/// descending price), the offer side (ascending price), and the arrival
/// counter that stamps every accepted order for time priority. All
/// mutating operations are meant to run strictly sequentially per
/// instrument; nothing here blocks or suspends.
pub struct MatchingEngine {
    pub bids: Vec<PriceLevel>,
    pub offers: Vec<PriceLevel>,
    pub next_sequence: u64,
}

impl MatchingEngine {
    /// The bid side as a mathematical sequence of levels.
    pub open spec fn bids_m(self) -> Seq<LevelModel> {
        self.bids.deep_view()
    }

    /// The offer side as a mathematical sequence of levels.
    pub open spec fn offers_m(self) -> Seq<LevelModel> {
        self.offers.deep_view()
    }

    /// One side of the book, chosen by `side`.
    pub open spec fn side_m(self, side: Side) -> Seq<LevelModel> {
        match side {
            Side::Bid => self.bids_m(),
            Side::Offer => self.offers_m(),
        }
    }

    /// An order with this id rests somewhere in the book.
    pub open spec fn has_order(self, id: u64) -> bool {
        has_id(self.bids_m(), id) || has_id(self.offers_m(), id)
    }

    /// The engine's invariant, established by `new` and preserved by every
    /// operation: both sides well formed (sorted best-first, positive
    /// prices and quantities, FIFO queues), the book never left crossed,
    /// ids unique across the whole book, and every stamped sequence below
    /// the arrival counter.
    pub open spec fn wf(self) -> bool {
        &&& side_wf(Side::Bid, self.bids_m())
        &&& side_wf(Side::Offer, self.offers_m())
        &&& no_cross(self.bids_m(), self.offers_m())
        &&& side_ids_unique(self.bids_m())
        &&& side_ids_unique(self.offers_m())
        &&& sides_ids_disjoint(self.bids_m(), self.offers_m())
        &&& sequences_below(self.bids_m(), self.next_sequence)
        &&& sequences_below(self.offers_m(), self.next_sequence)
    }

    /// An empty book.
    pub fn new() -> (e: MatchingEngine)
        ensures
            e.wf(),
            e.bids_m().len() == 0,
            e.offers_m().len() == 0,
            e.next_sequence == 0,
    {
        MatchingEngine { bids: Vec::new(), offers: Vec::new(), next_sequence: 0 }
    }

    /// Submits an order. A rejected order (zero quantity, zero price, an
    /// id already resting, or an exhausted arrival counter) leaves the
    /// book exactly as it was. An accepted order is matched against the
    /// opposing side best level first, head of queue first; every trade
    /// executes at the resting level's price; the traded volume plus the
    /// remainder equals the submitted quantity, the traded volume never
    /// exceeds the opposing crossable volume, and any positive remainder
    /// rests on the order's own side. The book is never left crossed.
    pub fn submit_order(&mut self, order: Order) -> (r: Result<
        (Vec<Trade>, OrderStatus),
        EngineError,
    >)
        requires
            old(self).wf(),
        ensures
            final(self).wf(),
            (r matches Err(EngineError::InvalidOrder) <==> (order.quantity == 0
                || order.price == 0 || old(self).has_order(order.id))),
            (r matches Err(EngineError::ArithmeticOverflow) <==> (order.quantity > 0
                && order.price > 0 && !old(self).has_order(order.id)
                && old(self).next_sequence == u64::MAX)),
            (r matches Ok(_) <==> (order.quantity > 0 && order.price > 0
                && !old(self).has_order(order.id) && old(self).next_sequence < u64::MAX)),
            r matches Err(_) ==> *final(self) == *old(self),
            (r matches Ok(res) ==> ({
                let opp0 = old(self).side_m(opposite(order.side));
                let own0 = old(self).side_m(order.side);
                let m = match_rec(opp0, order.side, order.price, order.quantity,
                    order.participant@);
                &&& res.0.deep_view() == m.trades
                &&& final(self).side_m(opposite(order.side)) == m.levels
                &&& final(self).side_m(order.side) == (if m.remaining > 0 {
                    insert_order_spec(own0, order.side, order.price, (OrderModel {
                        id: order.id,
                        participant: order.participant@,
                        quantity: m.remaining,
                        sequence: old(self).next_sequence,
                    }))
                } else {
                    own0
                })
                &&& res.1 == status_of(order.quantity, m.remaining)
                &&& final(self).next_sequence == old(self).next_sequence + 1
                &&& sum_volumes(m.trades) + m.remaining == order.quantity
                &&& sum_volumes(m.trades) <= crossable_volume(opp0, order.side, order.price)
                &&& (forall|i: int| 0 <= i < m.trades.len() ==> trade_priced(
                    #[trigger] m.trades[i],
                    opp0,
                    order.side,
                    order.price,
                    order.participant@,
                ))
                &&& levels_consumed(m.levels, opp0)
            })),
    {
        if order.quantity == 0 || order.price == 0 {
            return Err(EngineError::InvalidOrder);
        }
        let in_bids = find_order(&self.bids, order.id);
        if let Some(pos) = in_bids {
            proof {
                assert(order_at(self.bids_m(), pos.0 as int, pos.1 as int).id == order.id);
                assert(has_id(self.bids_m(), order.id));
            }
            return Err(EngineError::InvalidOrder);
        }
        let in_offers = find_order(&self.offers, order.id);
        if let Some(pos) = in_offers {
            proof {
                assert(order_at(self.offers_m(), pos.0 as int, pos.1 as int).id == order.id);
                assert(has_id(self.offers_m(), order.id));
            }
            return Err(EngineError::InvalidOrder);
        }
        if self.next_sequence == u64::MAX {
            return Err(EngineError::ArithmeticOverflow);
        }
        let seq_num = self.next_sequence;
        self.next_sequence = seq_num + 1;
        match order.side {
            Side::Bid => {
                let (trades, status) = submit_to_sides(
                    &mut self.bids,
                    &mut self.offers,
                    Side::Bid,
                    order,
                    seq_num,
                );
                Ok((trades, status))
            },
            Side::Offer => {
                proof {
                    lemma_disjoint_sym(old(self).bids_m(), old(self).offers_m());
                }
                let (trades, status) = submit_to_sides(
                    &mut self.offers,
                    &mut self.bids,
                    Side::Offer,
                    order,
                    seq_num,
                );
                proof {
                    lemma_disjoint_sym(self.offers_m(), self.bids_m());
                }
                Ok((trades, status))
            },
        }
    }

    /// Cancels the resting order with this id: the order's remaining
    /// quantity leaves the book, and nothing else changes — already
    /// executed volume stays executed, every other order stays untouched.
    /// An id that does not rest (unknown, fully filled, or already
    /// cancelled) is rejected with `OrderNotFound` and the book is left
    /// exactly as it was; in particular a repeated cancel fails.
    pub fn cancel_order(&mut self, id: u64) -> (r: Result<(), EngineError>)
        requires
            old(self).wf(),
        ensures
            final(self).wf(),
            final(self).next_sequence == old(self).next_sequence,
            (r matches Ok(_) <==> old(self).has_order(id)),
            r matches Err(e) ==> e == EngineError::OrderNotFound && *final(self) == *old(self),
            (r matches Ok(_) ==> exists|s: Side, li: int, oi: int|
                #[trigger] cancel_shape(*old(self), *final(self), s, li, oi, id)),
            r matches Ok(_) ==> !final(self).has_order(id),
    {
        let ghost pre = *self;
        let in_bids = find_order(&self.bids, id);
        if let Some(pos) = in_bids {
            let ghost bids0 = self.bids_m();
            let ghost offers0 = self.offers_m();
            proof {
                assert(has_id(bids0, id));
                lemma_remove_at_wf(bids0, Side::Bid, pos.0 as int, pos.1 as int);
                lemma_remove_at_unique(bids0, pos.0 as int, pos.1 as int);
                lemma_disjoint_sym(bids0, offers0);
            }
            remove_resting(&mut self.bids, pos.0, pos.1);
            proof {
                lemma_descend_sequences_below(self.bids_m(), bids0, self.next_sequence);
                lemma_descend_disjoint_right(offers0, self.bids_m(), bids0);
                lemma_disjoint_sym(offers0, self.bids_m());
                assert forall|l: int, o: int| valid_pos(offers0, l, o)
                    implies #[trigger] order_at(offers0, l, o).id != id by {
                    assert(order_at(bids0, pos.0 as int, pos.1 as int).id
                        != order_at(offers0, l, o).id);
                }
                assert(cancel_shape(pre, *self, Side::Bid, pos.0 as int, pos.1 as int, id));
            }
            return Ok(());
        }
        let in_offers = find_order(&self.offers, id);
        if let Some(pos) = in_offers {
            let ghost bids0 = self.bids_m();
            let ghost offers0 = self.offers_m();
            proof {
                assert(has_id(offers0, id));
                lemma_remove_at_wf(offers0, Side::Offer, pos.0 as int, pos.1 as int);
                lemma_remove_at_unique(offers0, pos.0 as int, pos.1 as int);
            }
            remove_resting(&mut self.offers, pos.0, pos.1);
            proof {
                lemma_descend_sequences_below(self.offers_m(), offers0, self.next_sequence);
                lemma_descend_disjoint_right(bids0, self.offers_m(), offers0);
                assert forall|l: int, o: int| valid_pos(bids0, l, o)
                    implies #[trigger] order_at(bids0, l, o).id != id by {
                    assert(order_at(bids0, l, o).id
                        != order_at(offers0, pos.0 as int, pos.1 as int).id);
                }
                assert(cancel_shape(pre, *self, Side::Offer, pos.0 as int, pos.1 as int, id));
            }
            return Ok(());
        }
        Err(EngineError::OrderNotFound)
    }

    /// The most aggressive resting bid price, if any bid rests.
    pub fn best_bid_price(&self) -> (r: Option<u64>)
        ensures
            r == (if self.bids_m().len() > 0 {
                Some(self.bids_m()[0].price)
            } else {
                None::<u64>
            }),
    {
        if self.bids.len() > 0 {
            Some(self.bids[0].price)
        } else {
            None
        }
    }

    /// The most aggressive resting offer price, if any offer rests.
    pub fn best_offer_price(&self) -> (r: Option<u64>)
        ensures
            r == (if self.offers_m().len() > 0 {
                Some(self.offers_m()[0].price)
            } else {
                None::<u64>
            }),
    {
        if self.offers.len() > 0 {
            Some(self.offers[0].price)
        } else {
            None
        }
    }

    /// The distinct prices present on a side, most aggressive first.
    pub fn get_price_levels(&self, side: Side) -> (r: Vec<u64>)
        ensures
            r.deep_view().len() == self.side_m(side).len(),
            forall|i: int| 0 <= i < r.deep_view().len()
                ==> r.deep_view()[i] == #[trigger] self.side_m(side)[i].price,
    {
        let ls: &Vec<PriceLevel> = match side {
            Side::Bid => &self.bids,
            Side::Offer => &self.offers,
        };
        let mut r: Vec<u64> = Vec::new();
        let mut i: usize = 0;
        while i < ls.len()
            invariant
                i <= ls.len(),
                r.deep_view().len() == i,
                forall|j: int| 0 <= j < i
                    ==> r.deep_view()[j] == #[trigger] ls.deep_view()[j].price,
            decreases ls.len() - i,
        {
            r.push(ls[i].price);
            i = i + 1;
        }
        r
    }

    /// The total remaining volume resting at exactly `price` on `side`;
    /// zero when no order rests there. The sum is exact: it is returned
    /// wide enough that it cannot wrap.
    pub fn get_volume_at_price(&self, side: Side, price: u64) -> (r: u128)
        ensures
            r as int == volume_at(self.side_m(side), price),
    {
        let ls: &Vec<PriceLevel> = match side {
            Side::Bid => &self.bids,
            Side::Offer => &self.offers,
        };
        let ghost lm = ls.deep_view();
        let mut i: usize = 0;
        while i < ls.len()
            invariant
                i <= ls.len(),
                lm == ls.deep_view(),
                lm == self.side_m(side),
                forall|j: int| 0 <= j < i ==> #[trigger] lm[j].price != price,
            decreases ls.len() - i,
        {
            if ls[i].price == price {
                proof {
                    lemma_volume_at_skip(lm, price, i as int);
                }
                let lvl: &PriceLevel = &ls[i];
                let ghost om = lvl.orders.deep_view();
                proof {
                    assert(lm.skip(i as int)[0] =~= lm[i as int]);
                    assert(volume_at(lm, price) == queue_volume(om));
                }
                let n: usize = lvl.orders.len();
                proof {
                    assert(om.len() == n);
                    assert(om.skip(0) =~= om);
                }
                let mut acc: u128 = 0;
                let mut j: usize = 0;
                while j < lvl.orders.len()
                    invariant
                        j <= lvl.orders.len(),
                        om == lvl.orders.deep_view(),
                        om.len() <= usize::MAX,
                        acc as int + queue_volume(om.skip(j as int)) == queue_volume(om),
                        acc as int <= j * 0xffff_ffff_ffff_ffff,
                    decreases lvl.orders.len() - j,
                {
                    proof {
                        assert(om.skip(j as int).drop_first() =~= om.skip(j as int + 1));
                        assert(om.skip(j as int)[0] == om[j as int]);
                        lemma_queue_volume_bound(om.skip(j as int + 1));
                        assert(acc as int + om[j as int].quantity as int
                            <= (j + 1) * 0xffff_ffff_ffff_ffff) by (nonlinear_arith)
                            requires
                                acc as int <= j * 0xffff_ffff_ffff_ffff,
                                om[j as int].quantity <= 0xffff_ffff_ffff_ffff,
                        ;
                        assert((j + 1) * 0xffff_ffff_ffff_ffff < 0xffff_ffff_ffff_ffff_ffff_ffff_ffff_ffff_ffff_ffff_ffff_ffff)
                            by (nonlinear_arith)
                            requires
                                j + 1 <= 0x1_0000_0000_0000_0000,
                        ;
                    }
                    acc = acc + (lvl.orders[j].quantity as u128);
                    j = j + 1;
                }
                proof {
                    assert(om.skip(om.len() as int).len() == 0);
                    assert(queue_volume(om.skip(om.len() as int)) == 0);
                }
                return acc;
            }
            i = i + 1;
        }
        proof {
            lemma_volume_at_skip(lm, price, lm.len() as int);
        }
        0
    }
}

/// The no-cross invariant in query terms: a well-formed book — and
/// `submit_order` and `cancel_order` both return the book well formed —
/// never quotes a best bid at or above the best offer while both sides
/// are non-empty.
pub proof fn law_no_cross(e: MatchingEngine)
    requires
        e.wf(),
    ensures
        e.bids_m().len() > 0 && e.offers_m().len() > 0
            ==> e.bids_m()[0].price < e.offers_m()[0].price,
{
}

} // verus!

