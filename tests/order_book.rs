use spot_match::journal::{CancelReason, Command, Event, JournalEvent, RejectReason};
use spot_match::order::{Order, OrderType, Side, Trade};
use spot_match::order_book::OrderBook;

const NOW: u64 = 1_700_000_000_000;

fn limit(id: u64, side: Side, price: u64, quantity: u64) -> Order {
    Order { id, user_id: 7, price, quantity, timestamp: NOW, order_type: OrderType::Limit, side }
}

fn market(id: u64, side: Side, quantity: u64) -> Order {
    Order { id, user_id: 7, price: 0, quantity, timestamp: NOW, order_type: OrderType::Market, side }
}

fn ev(seq: u64, event: Event) -> JournalEvent {
    JournalEvent { seq, event }
}

fn trade(buy: u64, sell: u64, price: u64, quantity: u64) -> Event {
    Event::Trade {
        trade: Trade { buy_order_id: buy, sell_order_id: sell, price, quantity, timestamp: NOW },
    }
}

/// (price, [(id, quantity)]) for each level of a side.
fn ladder(book: &OrderBook, side: Side) -> Vec<(u64, Vec<(u64, u64)>)> {
    book.levels(side, usize::MAX)
        .into_iter()
        .map(|l| (l.price, l.orders.iter().map(|o| (o.id, o.quantity)).collect()))
        .collect()
}

fn place(book: &mut OrderBook, o: Order) -> Vec<JournalEvent> {
    book.apply(Command::NewOrder(o), NOW)
}

#[test]
fn simple_cross() {
    let mut book = OrderBook::new();
    let r = place(&mut book, limit(1, Side::Buy, 100, 10));
    assert_eq!(
        r,
        vec![
            ev(1, Event::OrderAccepted { id: 1 }),
            ev(1, Event::OrderRested { id: 1, side: Side::Buy, price: 100, quantity: 10 }),
        ]
    );
    let r = place(&mut book, limit(2, Side::Sell, 100, 4));
    assert_eq!(
        r,
        vec![ev(2, Event::OrderAccepted { id: 2 }), ev(2, trade(1, 2, 100, 4)), ev(2, Event::OrderFilled { id: 2 })]
    );
    assert_eq!(ladder(&book, Side::Buy), vec![(100, vec![(1, 6)])]);
    assert!(ladder(&book, Side::Sell).is_empty());
}

#[test]
fn partial_sweep_across_levels() {
    let mut book = OrderBook::new();
    place(&mut book, limit(10, Side::Sell, 101, 5));
    place(&mut book, limit(11, Side::Sell, 102, 5));
    let r = place(&mut book, limit(20, Side::Buy, 102, 8));
    assert_eq!(
        r,
        vec![
            ev(3, Event::OrderAccepted { id: 20 }),
            ev(3, trade(20, 10, 101, 5)),
            ev(3, trade(20, 11, 102, 3)),
            ev(3, Event::OrderFilled { id: 20 }),
        ]
    );
    assert_eq!(ladder(&book, Side::Sell), vec![(102, vec![(11, 2)])]);
    assert!(ladder(&book, Side::Buy).is_empty());
}

#[test]
fn market_order_with_insufficient_liquidity() {
    let mut book = OrderBook::new();
    place(&mut book, limit(30, Side::Sell, 100, 2));
    let r = place(&mut book, market(31, Side::Buy, 5));
    assert_eq!(
        r,
        vec![
            ev(2, Event::OrderAccepted { id: 31 }),
            ev(2, trade(31, 30, 100, 2)),
            ev(2, Event::OrderCanceled { id: 31, reason: CancelReason::MarketUnfilled, remaining: 3 }),
        ]
    );
    assert!(ladder(&book, Side::Sell).is_empty());
    assert!(ladder(&book, Side::Buy).is_empty());
    assert!(book.is_empty());
}

#[test]
fn limit_non_cross_then_later_cross() {
    let mut book = OrderBook::new();
    place(&mut book, limit(40, Side::Buy, 99, 1));
    let r = place(&mut book, limit(41, Side::Sell, 100, 1));
    assert_eq!(
        r,
        vec![
            ev(2, Event::OrderAccepted { id: 41 }),
            ev(2, Event::OrderRested { id: 41, side: Side::Sell, price: 100, quantity: 1 }),
        ]
    );
    let r = place(&mut book, market(42, Side::Buy, 1));
    assert_eq!(
        r,
        vec![ev(3, Event::OrderAccepted { id: 42 }), ev(3, trade(42, 41, 100, 1)), ev(3, Event::OrderFilled { id: 42 })]
    );
    assert_eq!(ladder(&book, Side::Buy), vec![(99, vec![(40, 1)])]);
    assert!(ladder(&book, Side::Sell).is_empty());
}

#[test]
fn time_priority_scenario() {
    let mut book = OrderBook::new();
    place(&mut book, limit(50, Side::Buy, 100, 3));
    place(&mut book, limit(51, Side::Buy, 100, 3));
    let r = place(&mut book, market(52, Side::Sell, 4));
    assert_eq!(
        r,
        vec![
            ev(3, Event::OrderAccepted { id: 52 }),
            ev(3, trade(50, 52, 100, 3)),
            ev(3, trade(51, 52, 100, 1)),
            ev(3, Event::OrderFilled { id: 52 }),
        ]
    );
    assert_eq!(ladder(&book, Side::Buy), vec![(100, vec![(51, 2)])]);
}

#[test]
fn cancel_then_replace() {
    let mut book = OrderBook::new();
    place(&mut book, limit(60, Side::Buy, 100, 5));
    let r = book.apply(Command::CancelOrder { id: 60, side: Side::Buy, price: 100 }, NOW);
    assert_eq!(r, vec![ev(2, Event::OrderCanceled { id: 60, reason: CancelReason::Requested, remaining: 5 })]);
    let r = place(&mut book, limit(61, Side::Sell, 100, 5));
    assert_eq!(
        r,
        vec![
            ev(3, Event::OrderAccepted { id: 61 }),
            ev(3, Event::OrderRested { id: 61, side: Side::Sell, price: 100, quantity: 5 }),
        ]
    );
    assert!(ladder(&book, Side::Buy).is_empty());
    assert_eq!(ladder(&book, Side::Sell), vec![(100, vec![(61, 5)])]);
}

#[test]
fn unknown_cancel_twice_is_rejected_and_changes_nothing() {
    let mut book = OrderBook::new();
    place(&mut book, limit(1, Side::Buy, 100, 5));
    place(&mut book, limit(2, Side::Sell, 105, 5));
    let bids = ladder(&book, Side::Buy);
    let asks = ladder(&book, Side::Sell);
    let cancel = Command::CancelOrder { id: 99, side: Side::Buy, price: 100 };
    assert_eq!(book.apply(cancel, NOW), vec![ev(3, Event::CancelRejected { id: 99 })]);
    assert_eq!(book.apply(cancel, NOW), vec![ev(4, Event::CancelRejected { id: 99 })]);
    assert_eq!(ladder(&book, Side::Buy), bids);
    assert_eq!(ladder(&book, Side::Sell), asks);
    // right id, wrong price
    let cancel = Command::CancelOrder { id: 1, side: Side::Buy, price: 101 };
    assert_eq!(book.apply(cancel, NOW), vec![ev(5, Event::CancelRejected { id: 1 })]);
    assert_eq!(ladder(&book, Side::Buy), bids);
}

#[test]
fn quantity_is_conserved() {
    let mut book = OrderBook::new();
    place(&mut book, limit(1, Side::Sell, 100, 3));
    place(&mut book, limit(2, Side::Sell, 101, 4));
    place(&mut book, limit(3, Side::Sell, 103, 9));
    let r = place(&mut book, limit(4, Side::Buy, 101, 10));
    let mut total = 0;
    for e in &r {
        match e.event {
            Event::Trade { trade } => total += trade.quantity,
            Event::OrderRested { quantity, .. } => total += quantity,
            Event::OrderCanceled { remaining, reason: CancelReason::MarketUnfilled, .. } => total += remaining,
            _ => {}
        }
    }
    assert_eq!(total, 10);
    assert_eq!(r.last().unwrap().event, Event::OrderRested { id: 4, side: Side::Buy, price: 101, quantity: 3 });
    assert_eq!(ladder(&book, Side::Buy), vec![(101, vec![(4, 3)])]);
    assert_eq!(ladder(&book, Side::Sell), vec![(103, vec![(3, 9)])]);
}

#[test]
fn best_price_trades_first() {
    let mut book = OrderBook::new();
    place(&mut book, limit(1, Side::Buy, 98, 2));
    place(&mut book, limit(2, Side::Buy, 100, 2));
    place(&mut book, limit(3, Side::Buy, 99, 2));
    let r = place(&mut book, limit(4, Side::Sell, 97, 5));
    assert_eq!(
        r,
        vec![
            ev(4, Event::OrderAccepted { id: 4 }),
            ev(4, trade(2, 4, 100, 2)),
            ev(4, trade(3, 4, 99, 2)),
            ev(4, trade(1, 4, 98, 1)),
            ev(4, Event::OrderFilled { id: 4 }),
        ]
    );
    assert_eq!(ladder(&book, Side::Buy), vec![(98, vec![(1, 1)])]);
}

#[test]
fn ladders_are_kept_in_priority_order() {
    let mut book = OrderBook::new();
    for (id, p) in [(1, 100), (2, 102), (3, 101), (4, 102)] {
        place(&mut book, limit(id, Side::Buy, p, 1));
    }
    for (id, p) in [(5, 110), (6, 108), (7, 109), (8, 108)] {
        place(&mut book, limit(id, Side::Sell, p, 2));
    }
    assert_eq!(
        ladder(&book, Side::Buy),
        vec![(102, vec![(2, 1), (4, 1)]), (101, vec![(3, 1)]), (100, vec![(1, 1)])]
    );
    assert_eq!(
        ladder(&book, Side::Sell),
        vec![(108, vec![(6, 2), (8, 2)]), (109, vec![(7, 2)]), (110, vec![(5, 2)])]
    );
    assert_eq!(book.len(), 8);
    let (bids, asks) = book.snapshot(2);
    assert_eq!(bids, vec![(102, 2), (101, 1)]);
    assert_eq!(asks, vec![(108, 4), (109, 2)]);
    assert_eq!(book.levels(Side::Sell, 1).len(), 1);
}

#[test]
fn equal_price_crosses() {
    let mut book = OrderBook::new();
    place(&mut book, limit(1, Side::Sell, 100, 1));
    let r = place(&mut book, limit(2, Side::Buy, 100, 1));
    assert_eq!(r[1], ev(2, trade(2, 1, 100, 1)));
    assert!(book.is_empty());
    assert_eq!(book.len(), 0);
}

#[test]
fn invalid_orders_are_rejected() {
    let mut book = OrderBook::new();
    let r = place(&mut book, limit(1, Side::Buy, 100, 0));
    assert_eq!(r, vec![ev(1, Event::OrderRejected { id: 1, reason: RejectReason::InvalidInput })]);
    let r = place(&mut book, limit(2, Side::Sell, 0, 5));
    assert_eq!(r, vec![ev(2, Event::OrderRejected { id: 2, reason: RejectReason::InvalidInput })]);
    let r = place(&mut book, market(3, Side::Sell, 0));
    assert_eq!(r, vec![ev(3, Event::OrderRejected { id: 3, reason: RejectReason::InvalidInput })]);
    assert!(book.is_empty());
    assert_eq!(book.next_seq(), 4);
}

#[test]
fn duplicate_ids_are_rejected() {
    let mut book = OrderBook::new();
    place(&mut book, limit(1, Side::Buy, 100, 5));
    let r = place(&mut book, limit(1, Side::Sell, 120, 5));
    assert_eq!(r, vec![ev(2, Event::OrderRejected { id: 1, reason: RejectReason::DuplicateId })]);
    let r = place(&mut book, limit(1, Side::Buy, 90, 5));
    assert_eq!(r, vec![ev(3, Event::OrderRejected { id: 1, reason: RejectReason::DuplicateId })]);
    assert_eq!(ladder(&book, Side::Buy), vec![(100, vec![(1, 5)])]);
    assert!(ladder(&book, Side::Sell).is_empty());
}

#[test]
fn ids_seen_earlier_are_rejected() {
    let mut book = OrderBook::new();
    place(&mut book, limit(1, Side::Buy, 100, 5));
    let r = place(&mut book, limit(2, Side::Sell, 100, 5));
    assert_eq!(r.last().unwrap().event, Event::OrderFilled { id: 2 });
    assert!(book.is_empty());
    // order 1 was filled and no longer rests: it comes in again
    let r = book.add_order(limit(1, Side::Buy, 100, 5), NOW);
    assert_eq!(r, vec![ev(3, Event::OrderRejected { id: 1, reason: RejectReason::DuplicateId })]);
    let r = book.add_order(market(2, Side::Sell, 1), NOW);
    assert_eq!(r, vec![ev(4, Event::OrderRejected { id: 2, reason: RejectReason::DuplicateId })]);
    assert!(book.is_empty());
    // a canceled id stays used; a market order that ran dry too
    place(&mut book, limit(3, Side::Buy, 100, 5));
    book.apply(Command::CancelOrder { id: 3, side: Side::Buy, price: 100 }, NOW);
    place(&mut book, market(4, Side::Sell, 5));
    let r = place(&mut book, limit(3, Side::Buy, 100, 5));
    assert_eq!(r, vec![ev(8, Event::OrderRejected { id: 3, reason: RejectReason::DuplicateId })]);
    let r = place(&mut book, limit(4, Side::Buy, 100, 5));
    assert_eq!(r, vec![ev(9, Event::OrderRejected { id: 4, reason: RejectReason::DuplicateId })]);
    // a rejected invalid order does not use up its id
    place(&mut book, limit(5, Side::Buy, 100, 0));
    let r = place(&mut book, limit(5, Side::Buy, 100, 1));
    assert_eq!(r[0].event, Event::OrderAccepted { id: 5 });
}

#[test]
fn checked_snapshot() {
    let mut book = OrderBook::new();
    place(&mut book, limit(1, Side::Buy, 100, u64::MAX));
    place(&mut book, limit(2, Side::Sell, 110, 3));
    assert_eq!(book.try_snapshot(5), Some((vec![(100, u64::MAX)], vec![(110, 3)])));
    place(&mut book, limit(3, Side::Buy, 100, 1));
    assert_eq!(book.try_snapshot(5), None);
}

#[test]
fn add_order_matches_apply() {
    let mut a = OrderBook::new();
    let mut b = OrderBook::new();
    for o in [limit(1, Side::Buy, 100, 5), limit(2, Side::Sell, 99, 3), market(3, Side::Sell, 4)] {
        assert_eq!(a.add_order(o, NOW), b.apply(Command::NewOrder(o), NOW));
    }
    assert_eq!(ladder(&a, Side::Buy), ladder(&b, Side::Buy));
    assert!(a.is_empty());
}

#[test]
fn resting_order_takes_engine_time() {
    let mut book = OrderBook::new();
    let mut o = limit(1, Side::Buy, 100, 5);
    o.timestamp = 5;
    book.apply(Command::NewOrder(o), 77);
    let levels = book.levels(Side::Buy, 1);
    assert_eq!(levels[0].orders[0].timestamp, 77);
}

fn check_invariants(book: &OrderBook) {
    let bids = book.levels(Side::Buy, usize::MAX);
    let asks = book.levels(Side::Sell, usize::MAX);
    let mut ids = std::collections::HashSet::new();
    for (levels, side) in [(&bids, Side::Buy), (&asks, Side::Sell)] {
        for w in levels.windows(2) {
            match side {
                Side::Buy => assert!(w[0].price > w[1].price),
                Side::Sell => assert!(w[0].price < w[1].price),
            }
        }
        for l in levels.iter() {
            assert!(!l.orders.is_empty());
            for o in &l.orders {
                assert!(o.quantity > 0);
                assert_eq!(o.order_type, OrderType::Limit);
                assert_eq!(o.side, side);
                assert_eq!(o.price, l.price);
                assert!(ids.insert(o.id));
            }
        }
    }
    if let (Some(b), Some(a)) = (bids.first(), asks.first()) {
        assert!(b.price < a.price);
    }
    assert_eq!(book.len(), ids.len());
}

#[test]
fn invariants_hold_after_every_command() {
    let mut book = OrderBook::new();
    let mut state: u64 = 12345;
    let mut next = || {
        state = state.wrapping_mul(6364136223846793005).wrapping_add(1442695040888963407);
        state >> 33
    };
    for n in 1..=2000u64 {
        let side = if next() % 2 == 0 { Side::Buy } else { Side::Sell };
        let price = 95 + next() % 11;
        let qty = next() % 6;
        let r = match next() % 8 {
            0 => book.apply(Command::NewOrder(market(n, side, qty)), NOW),
            1 => book.apply(Command::CancelOrder { id: next() % n + 1, side, price }, NOW),
            2 => book.apply(Command::NewOrder(limit(next() % n + 1, side, price, qty)), NOW),
            _ => book.apply(Command::NewOrder(limit(n, side, price, qty)), NOW),
        };
        assert!(r.iter().all(|e| e.seq == n));
        let traded: u64 = r
            .iter()
            .map(|e| match e.event {
                Event::Trade { trade } => trade.quantity,
                _ => 0,
            })
            .sum();
        assert!(traded <= qty);
        check_invariants(&book);
    }
}
