use broker::controls::quit_requested;
use broker::random::order_from_draws;
use broker::errors::OrderError;
use broker::order::{Order, Side};
use broker::orderbook::{EngineAction, OrderBook};
use broker::mpsc::TryRecvError;

fn create_order(side: Side, price: i64, quantity: i64) -> Order {
    Order::new(side, quantity, price, 2).expect("Failed to get timestamp")
}

/// Creates an order once the clock has moved past `earlier`'s timestamp.
fn create_order_after(side: Side, price: i64, quantity: i64, earlier: &Order) -> Order {
    loop {
        let order = create_order(side, price, quantity);
        if order.timestamp > earlier.timestamp {
            return order;
        }
    }
}

fn order_at(side: Side, price: i64, quantity: i64, timestamp: u128) -> Order {
    Order::with_timestamp(side, quantity, price, 2, timestamp)
}

#[test]
fn test_order_creation() {
    let order = create_order(Side::Buy, 10000, 50);
    assert_eq!(order.side, Side::Buy);
    assert_eq!(order.price, 10000);
    assert_eq!(order.original_qty, 50);
    assert_eq!(order.remaining, 50);
    assert_eq!(order.decimals, 2);
    assert!(order.timestamp > 0);
}

#[test]
fn test_order_comparison() {
    let order1 = create_order(Side::Buy, 10000, 50);
    let order2 = create_order_after(Side::Buy, 10000, 50, &order1);

    assert!(order1 > order2);

    let order3 = create_order(Side::Buy, 10100, 50);
    assert!(order3 > order1);
}

#[test]
fn test_invalid_orders() {
    let mut orderbook = OrderBook::new();

    let invalid_qty = create_order(Side::Buy, 10000, 0);
    assert!(matches!(
        orderbook.submit_order(invalid_qty),
        Err(OrderError::InvalidQuantity)
    ));

    let invalid_price = create_order(Side::Buy, 0, 50);
    assert!(matches!(
        orderbook.submit_order(invalid_price),
        Err(OrderError::InvalidPrice)
    ));
}

#[test]
fn test_order_matching_buy() {
    let mut orderbook = OrderBook::new();

    let sell_order = create_order(Side::Sell, 10000, 50);
    orderbook.submit_order(sell_order.clone()).unwrap();

    let buy_order = create_order(Side::Buy, 10000, 50);
    orderbook.submit_order(buy_order.clone()).unwrap();

    let matched = orderbook.get_matched_orders();
    assert_eq!(matched.len(), 1);
    assert_eq!(matched[0].buy_order.price, buy_order.price);
    assert_eq!(matched[0].sell_order.price, sell_order.price);
    assert_eq!(matched[0].quantity, 50);
}

#[test]
fn test_order_matching_sell() {
    let mut orderbook = OrderBook::new();

    let buy_order = create_order(Side::Buy, 10000, 50);
    orderbook.submit_order(buy_order.clone()).unwrap();

    let sell_order = create_order(Side::Sell, 10000, 50);
    orderbook.submit_order(sell_order.clone()).unwrap();

    let matched = orderbook.get_matched_orders();
    assert_eq!(matched.len(), 1);
    assert_eq!(matched[0].buy_order.price, buy_order.price);
    assert_eq!(matched[0].sell_order.price, sell_order.price);
    assert_eq!(matched[0].quantity, 50);
}

#[test]
fn test_order_book_sorting() {
    let mut orderbook = OrderBook::new();

    let buy_orders: Vec<Order> = vec![
        create_order(Side::Buy, 10000, 50),
        create_order(Side::Buy, 10200, 50),
        create_order(Side::Buy, 10100, 50),
    ];

    let sell_orders: Vec<Order> = vec![
        create_order(Side::Sell, 10300, 50),
        create_order(Side::Sell, 10500, 50),
        create_order(Side::Sell, 10400, 50),
    ];

    for order in buy_orders.iter().chain(sell_orders.iter()) {
        orderbook.submit_order(order.clone()).unwrap();
    }

    let bids = orderbook.get_bids();
    assert!(!bids.is_empty(), "Bids should not be empty");
    for i in 0..bids.len() - 1 {
        assert!(
            bids[i].price >= bids[i + 1].price,
            "Bids not sorted by price desc"
        );
        if bids[i].price == bids[i + 1].price {
            assert!(
                bids[i].timestamp < bids[i + 1].timestamp,
                "Bids with same price not sorted by time asc"
            );
        }
    }

    let asks = orderbook.get_asks();
    assert!(!asks.is_empty(), "Asks should not be empty");
    for i in 0..asks.len() - 1 {
        assert!(
            asks[i].price <= asks[i + 1].price,
            "Asks not sorted by price asc"
        );
        if asks[i].price == asks[i + 1].price {
            assert!(
                asks[i].timestamp < asks[i + 1].timestamp,
                "Asks with same price not sorted by time asc"
            );
        }
    }
}

#[test]
fn test_price_time_priority() {
    let mut orderbook = OrderBook::new();

    let order1_ts_earlier = create_order(Side::Buy, 10000, 50);
    let order2_ts_later = create_order_after(Side::Buy, 10000, 50, &order1_ts_earlier);

    orderbook.submit_order(order2_ts_later.clone()).unwrap();
    orderbook.submit_order(order1_ts_earlier.clone()).unwrap();

    let bids = orderbook.get_bids();
    assert_eq!(bids.len(), 2, "Should be two bids in the book");
    assert_eq!(
        bids[0].timestamp, order1_ts_earlier.timestamp,
        "First bid should be the one with earlier timestamp"
    );
    assert_eq!(
        bids[1].timestamp, order2_ts_later.timestamp,
        "Second bid should be the one with later timestamp"
    );
    assert!(
        bids[0].timestamp < bids[1].timestamp,
        "Bid with earlier timestamp should be prioritized (come first). First: {}, Second: {}",
        bids[0].timestamp,
        bids[1].timestamp
    );
}

#[test]
fn test_no_match_conditions() {
    let mut orderbook = OrderBook::new();

    let buy_order = create_order(Side::Buy, 10000, 50);
    let sell_order = create_order(Side::Sell, 10100, 50);

    orderbook.submit_order(buy_order).unwrap();
    orderbook.submit_order(sell_order).unwrap();

    let matched = orderbook.get_matched_orders();
    assert_eq!(matched.len(), 0, "No orders should be matched");

    let bids = orderbook.get_bids();
    let asks = orderbook.get_asks();
    assert_eq!(bids.len(), 1, "Should be one buy order in bids");
    assert_eq!(asks.len(), 1, "Should be one sell order in asks");
}

#[test]
fn test_shutdown_and_processing() {
    let mut orderbook = OrderBook::new();

    let order1 = create_order(Side::Buy, 10000, 50);
    orderbook.submit_order(order1).unwrap();

    let bids_after_1 = orderbook.get_bids();
    assert_eq!(bids_after_1.len(), 1);
    assert_eq!(bids_after_1[0].price, 10000);

    let order2 = create_order(Side::Buy, 10100, 50);
    orderbook.submit_order(order2).unwrap();

    let bids_after_2 = orderbook.get_bids();
    assert_eq!(bids_after_2.len(), 2);
    assert!(bids_after_2.iter().any(|order| order.price == 10000));
    assert!(bids_after_2.iter().any(|order| order.price == 10100));
}

#[test]
fn test_partial_fill() {
    let mut orderbook = OrderBook::new();

    let sell_order = create_order(Side::Sell, 10000, 10);
    orderbook
        .submit_order(sell_order.clone())
        .expect("Failed to submit sell order");

    let buy_order = create_order(Side::Buy, 10000, 15);
    orderbook
        .submit_order(buy_order.clone())
        .expect("Failed to submit buy order");

    let trades = orderbook.get_matched_orders();
    assert_eq!(trades.len(), 1, "Should be one trade");
    assert_eq!(trades[0].quantity, 10, "Trade quantity should be 10");
    assert_eq!(trades[0].price, 10000, "Trade price should be 100.00");

    let asks = orderbook.get_asks();
    assert!(
        asks.is_empty(),
        "Asks should be empty after full fill of sell order"
    );

    let bids = orderbook.get_bids();
    assert_eq!(bids.len(), 1, "Should be one remaining bid");
    assert_eq!(bids[0].remaining, 5, "Remaining bid quantity should be 5");
    assert_eq!(bids[0].price, 10000);
}

#[test]
fn test_multiple_partial_fills() {
    let mut orderbook = OrderBook::new();

    let sell_orders = vec![
        create_order(Side::Sell, 10000, 5),
        create_order(Side::Sell, 10100, 3),
        create_order(Side::Sell, 10200, 7),
    ];

    for order in sell_orders.iter() {
        orderbook
            .submit_order(order.clone())
            .expect("Failed to submit sell order");
    }

    let buy_order = create_order(Side::Buy, 10200, 8);
    orderbook
        .submit_order(buy_order)
        .expect("Failed to submit buy order");

    let trades = orderbook.get_matched_orders();
    assert_eq!(trades.len(), 2, "Should be two trades");

    assert_eq!(trades[0].quantity, 3);
    assert_eq!(trades[0].price, 10100);
    assert_eq!(trades[0].sell_order.price, 10100);

    assert_eq!(trades[1].quantity, 5);
    assert_eq!(trades[1].price, 10000);
    assert_eq!(trades[1].sell_order.price, 10000);

    let asks = orderbook.get_asks();
    assert_eq!(asks.len(), 1, "Should be one remaining ask order (s3)");
    assert_eq!(asks[0].price, 10200);
    assert_eq!(asks[0].remaining, 7);

    let bids = orderbook.get_bids();
    assert!(
        bids.is_empty(),
        "Bids should be empty as buy order was filled"
    );
}

// ---------------------------------------------------------------------------
// Further cases
// ---------------------------------------------------------------------------

#[test]
fn book_is_never_crossed_after_a_sweep() {
    let mut book = OrderBook::new();
    book.process_order(order_at(Side::Sell, 101, 5, 1), 10);
    book.process_order(order_at(Side::Sell, 103, 5, 2), 11);
    book.process_order(order_at(Side::Buy, 102, 8, 3), 12);
    let bids = book.get_bids();
    let asks = book.get_asks();
    assert_eq!(bids.len(), 1);
    assert_eq!(bids[0].price, 102);
    assert_eq!(bids[0].remaining, 3);
    assert_eq!(asks.len(), 1);
    assert_eq!(asks[0].price, 103);
    assert!(bids[0].price < asks[0].price);
}

#[test]
fn trades_follow_time_priority_at_equal_price() {
    let mut book = OrderBook::new();
    book.process_order(order_at(Side::Sell, 100, 4, 20), 1);
    book.process_order(order_at(Side::Sell, 100, 4, 10), 2);
    book.process_order(order_at(Side::Buy, 100, 6, 30), 3);
    let trades = book.get_matched_orders();
    assert_eq!(trades.len(), 2);
    // Oldest trade last: first the earlier sell (timestamp 10) in full.
    assert_eq!(trades[1].sell_order.timestamp, 10);
    assert_eq!(trades[1].quantity, 4);
    assert_eq!(trades[0].sell_order.timestamp, 20);
    assert_eq!(trades[0].quantity, 2);
    let asks = book.get_asks();
    assert_eq!(asks.len(), 1);
    assert_eq!(asks[0].timestamp, 20);
    assert_eq!(asks[0].remaining, 2);
}

#[test]
fn trade_price_is_the_resting_price_and_records_orders_before_the_trade() {
    let mut book = OrderBook::new();
    book.process_order(order_at(Side::Buy, 105, 10, 1), 7);
    book.process_order(order_at(Side::Sell, 100, 4, 2), 8);
    let trades = book.get_matched_orders();
    assert_eq!(trades.len(), 1);
    assert_eq!(trades[0].price, 105);
    assert_eq!(trades[0].quantity, 4);
    assert_eq!(trades[0].buy_order.remaining, 10);
    assert_eq!(trades[0].sell_order.remaining, 4);
    assert_eq!(trades[0].timestamp, 8);
    let bids = book.get_bids();
    assert_eq!(bids[0].remaining, 6);
    assert!(book.get_asks().is_empty());
}

#[test]
fn filled_quantity_and_rest_add_up() {
    let mut book = OrderBook::new();
    book.process_order(order_at(Side::Buy, 100, 3, 1), 1);
    book.process_order(order_at(Side::Buy, 99, 2, 2), 1);
    book.process_order(order_at(Side::Sell, 99, 10, 3), 1);
    let traded: i64 = book.get_matched_orders().iter().map(|t| t.quantity).sum();
    let asks = book.get_asks();
    assert_eq!(traded, 5);
    assert_eq!(asks.len(), 1);
    assert_eq!(asks[0].remaining, 5);
    assert_eq!(traded + asks[0].remaining, 10);
    assert!(book.get_bids().is_empty());
}

#[test]
fn rejected_order_leaves_book_unchanged() {
    let mut book = OrderBook::new();
    book.submit_order(order_at(Side::Sell, 100, 3, 1)).unwrap();
    assert_eq!(book.submit_order(order_at(Side::Buy, 100, -1, 2)), Err(OrderError::InvalidQuantity));
    assert_eq!(book.submit_order(order_at(Side::Buy, -5, 1, 3)), Err(OrderError::InvalidPrice));
    assert_eq!(book.submit_order(order_at(Side::Buy, 0, 0, 3)), Err(OrderError::InvalidQuantity));
    assert_eq!(book.get_asks().len(), 1);
    assert!(book.get_bids().is_empty());
    assert!(book.get_matched_orders().is_empty());
}

#[test]
fn validate_order_checks_quantity_then_price() {
    assert_eq!(OrderBook::validate_order(&order_at(Side::Sell, 1, 1, 0)), Ok(()));
    assert_eq!(OrderBook::validate_order(&order_at(Side::Sell, 0, 0, 0)), Err(OrderError::InvalidQuantity));
    assert_eq!(OrderBook::validate_order(&order_at(Side::Sell, 0, 1, 0)), Err(OrderError::InvalidPrice));
}

#[test]
fn engine_step_follows_the_channel() {
    let mut book = OrderBook::default();
    assert_eq!(book.engine_step(Err(TryRecvError::Empty)), EngineAction::Idle);
    assert_eq!(book.engine_step(Ok(order_at(Side::Buy, 100, 1, 1))), EngineAction::Continue);
    assert_eq!(book.get_bids().len(), 1);
    assert_eq!(book.engine_step(Err(TryRecvError::Disconnected)), EngineAction::Stop);
    assert_eq!(book.get_bids().len(), 1);
}

#[test]
fn error_messages() {
    assert_eq!(OrderError::InvalidQuantity.message(), "Invalid order quantity");
    assert_eq!(OrderError::InvalidPrice.message(), "Invalid order price");
    assert_eq!(OrderError::ChannelError.message(), "Channel send error");
}

#[test]
fn orders_compare_by_price_then_earlier_first() {
    let a = order_at(Side::Sell, 100, 1, 5);
    let b = order_at(Side::Buy, 100, 7, 5);
    assert!(a == b);
    let c = order_at(Side::Sell, 100, 1, 6);
    assert!(a != c);
    assert!(a > c);
    assert!(c < a);
    let d = order_at(Side::Sell, 99, 1, 1);
    assert!(d < c);
    assert_eq!(a.partial_cmp(&b), Some(std::cmp::Ordering::Equal));
}

#[test]
fn random_orders_stay_in_range() {
    for _ in 0..200 {
        let o = broker::generate_random_order().expect("Failed to get timestamp");
        assert!(o.price >= 9000 && o.price <= 11000);
        assert!(o.original_qty >= 1 && o.original_qty <= 100);
        assert_eq!(o.remaining, o.original_qty);
        assert_eq!(o.decimals, 2);
        assert!(o.timestamp > 0);
    }
}

#[test]
fn random_orders_take_both_sides() {
    let mut buys = 0;
    let mut sells = 0;
    for _ in 0..400 {
        match broker::generate_random_order().expect("Failed to get timestamp").side {
            Side::Buy => buys += 1,
            Side::Sell => sells += 1,
        }
    }
    assert!(buys > 0 && sells > 0);
}

#[test]
fn clock_reads_after_the_epoch() {
    let now = broker::clock::now_millis().expect("clock before the epoch");
    // 2020-01-01 in milliseconds.
    assert!(now > 1_577_836_800_000);
}

#[test]
fn random_orders_vary() {
    let first = broker::generate_random_order().expect("Failed to get timestamp");
    let mut price_varies = false;
    let mut quantity_varies = false;
    for _ in 0..200 {
        let o = broker::generate_random_order().expect("Failed to get timestamp");
        price_varies |= o.price != first.price;
        quantity_varies |= o.original_qty != first.original_qty;
    }
    assert!(price_varies && quantity_varies);
}

#[test]
fn opposing_side_loses_exactly_what_traded() {
    let mut book = OrderBook::new();
    book.process_order(order_at(Side::Buy, 100, 4, 1), 1);
    book.process_order(order_at(Side::Buy, 101, 6, 2), 1);
    let before: i64 = book.get_bids().iter().map(|o| o.remaining).sum();
    book.process_order(order_at(Side::Sell, 100, 7, 3), 1);
    let after: i64 = book.get_bids().iter().map(|o| o.remaining).sum();
    let traded: i64 = book.get_matched_orders().iter().map(|t| t.quantity).sum();
    assert_eq!(traded, 7);
    assert_eq!(before - after, traded);
    // The better-priced bid went first.
    let trades = book.get_matched_orders();
    assert_eq!(trades[1].buy_order.price, 101);
    assert_eq!(trades[1].quantity, 6);
    assert_eq!(trades[0].buy_order.price, 100);
    assert_eq!(trades[0].quantity, 1);
}

#[test]
fn conservation_over_a_run_of_orders() {
    let mut book = OrderBook::new();
    let orders = vec![
        order_at(Side::Buy, 100, 5, 1),
        order_at(Side::Sell, 102, 4, 2),
        order_at(Side::Sell, 99, 7, 3),
        order_at(Side::Buy, 103, 9, 4),
        order_at(Side::Sell, 101, 2, 5),
    ];
    let mut bought = 0;
    let mut sold = 0;
    for o in orders {
        match o.side {
            Side::Buy => bought += o.remaining,
            Side::Sell => sold += o.remaining,
        }
        book.submit_order(o).unwrap();
    }
    let traded: i64 = book.get_matched_orders().iter().map(|t| t.quantity).sum();
    let resting_bids: i64 = book.get_bids().iter().map(|o| o.remaining).sum();
    let resting_asks: i64 = book.get_asks().iter().map(|o| o.remaining).sum();
    assert_eq!(bought, resting_bids + traded);
    assert_eq!(sold, resting_asks + traded);
    for o in book.get_bids().iter().chain(book.get_asks().iter()) {
        assert!(o.price > 0 && 0 < o.remaining && o.remaining <= o.original_qty);
    }
}

#[test]
fn quit_keys() {
    assert!(quit_requested(Some('q'), false));
    assert!(quit_requested(Some('q'), true));
    assert!(quit_requested(Some('c'), true));
    assert!(!quit_requested(Some('c'), false));
    assert!(!quit_requested(Some('x'), true));
    assert!(!quit_requested(None, true));
}

#[test]
fn order_from_draws_maps_the_coin_to_a_side() {
    let b = order_from_draws(true, 9500, 12, 77);
    assert_eq!(b.side, Side::Buy);
    assert_eq!(b.price, 9500);
    assert_eq!(b.original_qty, 12);
    assert_eq!(b.remaining, 12);
    assert_eq!(b.decimals, 2);
    assert_eq!(b.timestamp, 77);
    let s = order_from_draws(false, 10100, 3, 78);
    assert_eq!(s.side, Side::Sell);
    assert_eq!(s.price, 10100);
    assert_eq!(s.remaining, 3);
}
