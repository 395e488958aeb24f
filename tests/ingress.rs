use std::sync::Arc;

use crossbeam_channel::unbounded;
use crossbeam_queue::ArrayQueue;
use order_matching_engine::api::{accept_order, is_valid_symbol, SubmitError};
use order_matching_engine::errors::AlgorithmError;
use order_matching_engine::fabric::{Fabric, RouteOutcome, ShardRoute};
use order_matching_engine::fifo::FifoMatcher;
use order_matching_engine::matching_book::MatchingBook;
use order_matching_engine::shard::Shard;
use order_matching_engine::trade::TradeRanks;
use order_matching_engine::types::{Event, Order, OrderIn, Side};

fn order_in(symbol: &str, price: u64, qty: u64) -> OrderIn {
    OrderIn { symbol: symbol.to_string(), price, qty }
}

#[test]
fn whitelist_accepts_only_known_symbols() {
    assert!(is_valid_symbol("Pranesh"));
    assert!(is_valid_symbol("Superman"));
    assert!(is_valid_symbol("Arnimzola"));
    assert!(!is_valid_symbol("pranesh"));
    assert!(!is_valid_symbol(""));
    assert!(!is_valid_symbol("AAPL"));
}

#[test]
fn port_validates_submissions() {
    assert_eq!(accept_order(order_in("AAPL", 10, 1), Side::BUY).unwrap_err(), SubmitError::InvalidSymbol);
    assert_eq!(
        accept_order(order_in("Superman", 0, 1), Side::BUY).unwrap_err(),
        SubmitError::InvalidPriceOrQuantity
    );
    assert_eq!(
        accept_order(order_in("Superman", 3, 0), Side::SELL).unwrap_err(),
        SubmitError::InvalidPriceOrQuantity
    );
    let e = accept_order(order_in("Superman", 3, 4), Side::SELL).unwrap();
    assert_eq!((e.side, e.price, e.qty, e.symbol.as_str()), (Side::SELL, 3, 4, "Superman"));
}

#[test]
fn event_construction_and_copy() {
    let e = Event::new_order(Side::BUY, 7, 8, "Pranesh".to_string());
    let d = e.duplicate();
    assert_eq!((d.side, d.price, d.qty, d.symbol), (Side::BUY, 7, 8, "Pranesh".to_string()));
}

#[test]
fn priority_entries_order_by_side() {
    let low_bid = Order::new(10, 1, Side::BUY);
    let high_bid = Order::new(11, 1, Side::BUY);
    assert!(high_bid > low_bid);
    let low_ask = Order::new(10, 1, Side::SELL);
    let high_ask = Order::new(11, 1, Side::SELL);
    assert!(low_ask > high_ask);
    assert!(Order::new(10, 5, Side::BUY) == Order::new(10, 9, Side::SELL));
}

fn route(symbol: &str, cap: usize) -> (ShardRoute, Arc<ArrayQueue<Event>>, crossbeam_channel::Receiver<()>) {
    let queue = Arc::new(ArrayQueue::new(cap));
    let (tx, rx) = unbounded();
    (ShardRoute { symbol: symbol.to_string(), queue: queue.clone(), wakeup: tx }, queue, rx)
}

#[test]
fn fabric_routes_drops_and_signals() {
    let (_in_tx, in_rx) = unbounded::<Event>();
    let (r1, q1, w1) = route("Pranesh", 1);
    let (r2, q2, w2) = route("Superman", 4);
    drop(w2);
    let fabric = Fabric::new(in_rx, vec![r1, r2]);

    let ev = |s: &str, p: u64| Event::new_order(Side::BUY, p, 1, s.to_string());
    assert_eq!(fabric.route_event(ev("Pranesh", 1)), RouteOutcome::Routed);
    assert_eq!(w1.try_recv(), Ok(()));
    assert_eq!(fabric.route_event(ev("Pranesh", 2)), RouteOutcome::QueueFull);
    assert!(w1.try_recv().is_err());
    assert_eq!(q1.pop().unwrap().price, 1);
    assert_eq!(fabric.route_event(ev("Superman", 3)), RouteOutcome::WakeupFailed);
    assert_eq!(q2.len(), 1);
    assert_eq!(fabric.route_event(ev("Arnimzola", 4)), RouteOutcome::UnknownSymbol);
    assert_eq!(fabric.find_route(&"Superman".to_string()), Some(1));
    assert_eq!(fabric.find_route(&"Nobody".to_string()), None);
}

#[test]
fn shard_assigns_ids_and_matches() {
    let mut ranks = TradeRanks::new();
    let mut shard = Shard::new("Pranesh".to_string(), MatchingBook::Fifo(FifoMatcher::new()));
    let t = shard.process_event(Event::new_order(Side::SELL, 100, 50, "Pranesh".to_string()), &mut ranks);
    assert!(t.unwrap().is_empty());
    assert_eq!(shard.get_stats(), (0, 1));
    let t = shard
        .process_event(Event::new_order(Side::BUY, 100, 30, "Pranesh".to_string()), &mut ranks)
        .unwrap();
    assert_eq!(t.len(), 1);
    assert_eq!((t[0].buy_id, t[0].sell_id, t[0].price, t[0].quantity, t[0].rank), (2, 1, 100, 30, 1));
    assert_eq!(shard.get_stats(), (0, 1));
    assert_eq!(shard.next_order_id, 3);
    let r = shard.process_event(Event::new_order(Side::BUY, 0, 3, "Pranesh".to_string()), &mut ranks);
    assert!(matches!(r, Err(AlgorithmError::InvalidOrder(_))));
}

#[test]
fn shard_refuses_when_ids_run_out() {
    let mut ranks = TradeRanks::new();
    let mut shard = Shard::new("Pranesh".to_string(), MatchingBook::Fifo(FifoMatcher::new()));
    shard.next_order_id = u64::MAX;
    let r = shard.process_event(Event::new_order(Side::BUY, 1, 1, "Pranesh".to_string()), &mut ranks);
    assert_eq!(r, Err(AlgorithmError::Internal));
    assert_eq!(shard.get_stats(), (0, 0));
}
