use matching_engine::book::{EngineError, Order, OrderStatus, Side};
use matching_engine::engine::MatchingEngine;

fn order(id: u64, participant: &str, side: Side, price: u64, quantity: u64) -> Order {
    Order { id, participant: String::from(participant), side, price, quantity }
}

// Prices are fixed-point integers in minor currency units: 15.50 is 1550.

#[test]
fn scenario_bid_waits_for_crossing_offer() {
    let mut e = MatchingEngine::new();

    let (trades, status) = e.submit_order(order(1, "Y", Side::Bid, 1550, 100)).unwrap();
    assert_eq!(trades.len(), 0);
    assert_eq!(status, OrderStatus::FullyRested);

    let (trades, status) = e.submit_order(order(2, "A", Side::Offer, 1600, 100)).unwrap();
    assert_eq!(trades.len(), 0);
    assert_eq!(status, OrderStatus::FullyRested);

    let (trades, status) = e.submit_order(order(3, "B", Side::Offer, 1500, 100)).unwrap();
    assert_eq!(trades.len(), 1);
    assert_eq!(trades[0].buyer, "Y");
    assert_eq!(trades[0].seller, "B");
    assert_eq!(trades[0].price, 1550);
    assert_eq!(trades[0].volume, 100);
    assert_eq!(status, OrderStatus::Filled);

    // Offer A rests alone; bid Y and offer B are gone.
    assert_eq!(e.best_bid_price(), None);
    assert_eq!(e.best_offer_price(), Some(1600));
    assert_eq!(e.get_price_levels(Side::Bid), Vec::<u64>::new());
    assert_eq!(e.get_price_levels(Side::Offer), vec![1600]);
    assert_eq!(e.get_volume_at_price(Side::Offer, 1600), 100);
    assert_eq!(e.get_volume_at_price(Side::Offer, 1500), 0);
}

#[test]
fn scenario_partial_fill_rests_remainder() {
    let mut e = MatchingEngine::new();

    let (trades, status) = e.submit_order(order(1, "X", Side::Bid, 1000, 50)).unwrap();
    assert_eq!(trades.len(), 0);
    assert_eq!(status, OrderStatus::FullyRested);

    let (trades, status) = e.submit_order(order(2, "Z", Side::Offer, 1000, 30)).unwrap();
    assert_eq!(trades.len(), 1);
    assert_eq!(trades[0].buyer, "X");
    assert_eq!(trades[0].seller, "Z");
    assert_eq!(trades[0].price, 1000);
    assert_eq!(trades[0].volume, 30);
    assert_eq!(status, OrderStatus::Filled);

    // Bid X rests with the remaining 20 at 10.00.
    assert_eq!(e.best_bid_price(), Some(1000));
    assert_eq!(e.best_offer_price(), None);
    assert_eq!(e.get_volume_at_price(Side::Bid, 1000), 20);
}

#[test]
fn scenario_cancelled_offer_no_longer_trades() {
    let mut e = MatchingEngine::new();

    let (trades, _) = e.submit_order(order(7, "P", Side::Offer, 500, 10)).unwrap();
    assert_eq!(trades.len(), 0);

    assert_eq!(e.cancel_order(7), Ok(()));
    assert_eq!(e.get_price_levels(Side::Offer), Vec::<u64>::new());

    let (trades, status) = e.submit_order(order(8, "Q", Side::Bid, 500, 10)).unwrap();
    assert_eq!(trades.len(), 0);
    assert_eq!(status, OrderStatus::FullyRested);
    assert_eq!(e.best_bid_price(), Some(500));
}

#[test]
fn price_time_priority_equal_prices_fifo() {
    let mut e = MatchingEngine::new();
    e.submit_order(order(1, "FIRST", Side::Offer, 1000, 10)).unwrap();
    e.submit_order(order(2, "SECOND", Side::Offer, 1000, 10)).unwrap();

    // A bid for 15 takes all of the earlier offer and part of the later.
    let (trades, status) = e.submit_order(order(3, "T", Side::Bid, 1000, 15)).unwrap();
    assert_eq!(trades.len(), 2);
    assert_eq!(trades[0].seller, "FIRST");
    assert_eq!(trades[0].volume, 10);
    assert_eq!(trades[1].seller, "SECOND");
    assert_eq!(trades[1].volume, 5);
    assert_eq!(status, OrderStatus::Filled);
    assert_eq!(e.get_volume_at_price(Side::Offer, 1000), 5);
}

#[test]
fn price_priority_better_level_first() {
    let mut e = MatchingEngine::new();
    e.submit_order(order(1, "CHEAP", Side::Offer, 900, 10)).unwrap();
    e.submit_order(order(2, "DEAR", Side::Offer, 1100, 10)).unwrap();

    let (trades, _) = e.submit_order(order(3, "T", Side::Bid, 1100, 12)).unwrap();
    assert_eq!(trades.len(), 2);
    assert_eq!(trades[0].seller, "CHEAP");
    assert_eq!(trades[0].price, 900);
    assert_eq!(trades[0].volume, 10);
    assert_eq!(trades[1].seller, "DEAR");
    assert_eq!(trades[1].price, 1100);
    assert_eq!(trades[1].volume, 2);
}

#[test]
fn trade_priced_at_resting_order() {
    let mut e = MatchingEngine::new();
    e.submit_order(order(1, "R", Side::Offer, 1000, 5)).unwrap();
    let (trades, _) = e.submit_order(order(2, "T", Side::Bid, 1200, 5)).unwrap();
    assert_eq!(trades[0].price, 1000);

    let mut e2 = MatchingEngine::new();
    e2.submit_order(order(1, "R", Side::Bid, 1200, 5)).unwrap();
    let (trades, _) = e2.submit_order(order(2, "T", Side::Offer, 1000, 5)).unwrap();
    assert_eq!(trades[0].price, 1200);
    assert_eq!(trades[0].buyer, "R");
    assert_eq!(trades[0].seller, "T");
}

#[test]
fn volume_conservation_across_partial_fills() {
    let mut e = MatchingEngine::new();
    e.submit_order(order(1, "A", Side::Offer, 1000, 7)).unwrap();
    e.submit_order(order(2, "B", Side::Offer, 1001, 9)).unwrap();
    e.submit_order(order(3, "C", Side::Offer, 1002, 11)).unwrap();

    let initial = 20u64;
    let (trades, status) = e.submit_order(order(4, "T", Side::Bid, 1001, initial)).unwrap();
    let traded: u64 = trades.iter().map(|t| t.volume).sum();
    assert_eq!(traded, 16); // 7 at 10.00 and 9 at 10.01; 10.02 does not cross
    assert_eq!(status, OrderStatus::PartiallyRested { remaining_quantity: initial - traded });
    assert_eq!(e.get_volume_at_price(Side::Bid, 1001), (initial - traded) as u128);
    assert_eq!(e.get_volume_at_price(Side::Offer, 1002), 11);
}

#[test]
fn book_never_left_crossed() {
    let mut e = MatchingEngine::new();
    e.submit_order(order(1, "A", Side::Bid, 990, 10)).unwrap();
    e.submit_order(order(2, "B", Side::Offer, 1010, 10)).unwrap();
    e.submit_order(order(3, "C", Side::Bid, 1005, 4)).unwrap();
    e.submit_order(order(4, "D", Side::Offer, 1000, 30)).unwrap();
    if let (Some(b), Some(o)) = (e.best_bid_price(), e.best_offer_price()) {
        assert!(b < o);
    }
    e.cancel_order(1).unwrap();
    if let (Some(b), Some(o)) = (e.best_bid_price(), e.best_offer_price()) {
        assert!(b < o);
    }
}

#[test]
fn cancel_removes_exactly_the_remaining_quantity() {
    let mut e = MatchingEngine::new();
    e.submit_order(order(1, "A", Side::Bid, 1000, 50)).unwrap();
    e.submit_order(order(2, "B", Side::Bid, 1000, 60)).unwrap();
    // Partially fill the first bid: 20 of A's 50 execute.
    e.submit_order(order(3, "S", Side::Offer, 1000, 20)).unwrap();
    assert_eq!(e.get_volume_at_price(Side::Bid, 1000), 90);

    // Cancelling A removes only A's remaining 30; B's 60 stay.
    assert_eq!(e.cancel_order(1), Ok(()));
    assert_eq!(e.get_volume_at_price(Side::Bid, 1000), 60);

    // A repeated cancel fails.
    assert_eq!(e.cancel_order(1), Err(EngineError::OrderNotFound));
    assert_eq!(e.get_volume_at_price(Side::Bid, 1000), 60);
}

#[test]
fn cancel_unknown_or_filled_id_fails() {
    let mut e = MatchingEngine::new();
    assert_eq!(e.cancel_order(99), Err(EngineError::OrderNotFound));

    e.submit_order(order(1, "A", Side::Offer, 1000, 5)).unwrap();
    e.submit_order(order(2, "B", Side::Bid, 1000, 5)).unwrap();
    // Order 1 was fully filled, so its id no longer rests.
    assert_eq!(e.cancel_order(1), Err(EngineError::OrderNotFound));
}

#[test]
fn invalid_orders_rejected_without_mutation() {
    let mut e = MatchingEngine::new();
    assert!(matches!(
        e.submit_order(order(1, "A", Side::Bid, 1000, 0)),
        Err(EngineError::InvalidOrder)
    ));
    assert!(matches!(
        e.submit_order(order(1, "A", Side::Bid, 0, 10)),
        Err(EngineError::InvalidOrder)
    ));
    assert_eq!(e.best_bid_price(), None);

    e.submit_order(order(1, "A", Side::Bid, 1000, 10)).unwrap();
    // A duplicate id is rejected and the book is unchanged.
    assert!(matches!(
        e.submit_order(order(1, "B", Side::Offer, 2000, 5)),
        Err(EngineError::InvalidOrder)
    ));
    assert_eq!(e.get_volume_at_price(Side::Bid, 1000), 10);
    assert_eq!(e.best_offer_price(), None);
}

#[test]
fn exact_match_removes_both_orders() {
    let mut e = MatchingEngine::new();
    e.submit_order(order(1, "A", Side::Bid, 1000, 25)).unwrap();
    let (trades, status) = e.submit_order(order(2, "B", Side::Offer, 1000, 25)).unwrap();
    assert_eq!(trades.len(), 1);
    assert_eq!(trades[0].volume, 25);
    assert_eq!(status, OrderStatus::Filled);
    assert_eq!(e.best_bid_price(), None);
    assert_eq!(e.best_offer_price(), None);
}

#[test]
fn price_levels_ordered_best_first() {
    let mut e = MatchingEngine::new();
    e.submit_order(order(1, "A", Side::Bid, 990, 1)).unwrap();
    e.submit_order(order(2, "B", Side::Bid, 995, 1)).unwrap();
    e.submit_order(order(3, "C", Side::Bid, 980, 1)).unwrap();
    e.submit_order(order(4, "D", Side::Offer, 1010, 1)).unwrap();
    e.submit_order(order(5, "E", Side::Offer, 1005, 1)).unwrap();
    e.submit_order(order(6, "F", Side::Offer, 1020, 1)).unwrap();

    assert_eq!(e.get_price_levels(Side::Bid), vec![995, 990, 980]);
    assert_eq!(e.get_price_levels(Side::Offer), vec![1005, 1010, 1020]);
}

#[test]
fn empty_book_queries() {
    let e = MatchingEngine::new();
    assert_eq!(e.best_bid_price(), None);
    assert_eq!(e.best_offer_price(), None);
    assert_eq!(e.get_price_levels(Side::Bid), Vec::<u64>::new());
    assert_eq!(e.get_price_levels(Side::Offer), Vec::<u64>::new());
    assert_eq!(e.get_volume_at_price(Side::Bid, 1000), 0);
}

#[test]
fn aggressive_order_sweeps_multiple_levels_and_rests() {
    let mut e = MatchingEngine::new();
    e.submit_order(order(1, "A", Side::Bid, 1000, 10)).unwrap();
    e.submit_order(order(2, "B", Side::Bid, 999, 10)).unwrap();

    let (trades, status) = e.submit_order(order(3, "S", Side::Offer, 998, 35)).unwrap();
    assert_eq!(trades.len(), 2);
    assert_eq!(trades[0].price, 1000);
    assert_eq!(trades[0].buyer, "A");
    assert_eq!(trades[1].price, 999);
    assert_eq!(trades[1].buyer, "B");
    assert_eq!(status, OrderStatus::PartiallyRested { remaining_quantity: 15 });
    assert_eq!(e.best_bid_price(), None);
    assert_eq!(e.best_offer_price(), Some(998));
    assert_eq!(e.get_volume_at_price(Side::Offer, 998), 15);
}

#[test]
fn self_trading_is_permitted() {
    let mut e = MatchingEngine::new();
    e.submit_order(order(1, "SAME", Side::Offer, 1000, 5)).unwrap();
    let (trades, _) = e.submit_order(order(2, "SAME", Side::Bid, 1000, 5)).unwrap();
    assert_eq!(trades.len(), 1);
    assert_eq!(trades[0].buyer, "SAME");
    assert_eq!(trades[0].seller, "SAME");
}

#[test]
fn largest_representable_quantities_do_not_wrap() {
    let mut e = MatchingEngine::new();
    e.submit_order(order(1, "A", Side::Offer, 1, u64::MAX)).unwrap();
    e.submit_order(order(2, "B", Side::Offer, 1, u64::MAX)).unwrap();
    // The level's total exceeds u64; the query reports it exactly.
    assert_eq!(e.get_volume_at_price(Side::Offer, 1), u64::MAX as u128 * 2);

    let (trades, status) = e.submit_order(order(3, "T", Side::Bid, 1, u64::MAX)).unwrap();
    assert_eq!(trades.len(), 1);
    assert_eq!(trades[0].volume, u64::MAX);
    assert_eq!(status, OrderStatus::Filled);
    assert_eq!(e.get_volume_at_price(Side::Offer, 1), u64::MAX as u128);
}
