use order_matching_engine::fifo::FifoMatcher;
use order_matching_engine::order::{Order, Side};
use order_matching_engine::trade::TradeRanks;

#[test]
fn test_trade_ranking_sequential() {
    let mut ranks = TradeRanks::new();
    FifoMatcher::reset_trade_rank(&mut ranks);

    let mut matcher = FifoMatcher::new();

    let buy1 = Order::new(1, Side::Buy, 100, 10);
    let sell1 = Order::new(2, Side::Sell, 100, 5);
    let sell2 = Order::new(3, Side::Sell, 100, 8);

    matcher.match_order(buy1, &mut ranks).unwrap();
    let trades1 = matcher.match_order(sell1, &mut ranks).unwrap();
    let trades2 = matcher.match_order(sell2, &mut ranks).unwrap();

    assert_eq!(trades1.len(), 1);
    assert_eq!(trades2.len(), 1);
    assert_eq!(trades1[0].rank, 1);
    assert_eq!(trades2[0].rank, 2);
}

#[test]
fn test_trade_ranking_uniqueness() {
    let mut ranks = TradeRanks::new();
    FifoMatcher::reset_trade_rank(&mut ranks);

    let mut matcher1 = FifoMatcher::new();
    let mut matcher2 = FifoMatcher::new();

    let buy1 = Order::new(1, Side::Buy, 100, 10);
    let sell1 = Order::new(2, Side::Sell, 100, 10);
    let buy2 = Order::new(3, Side::Buy, 100, 10);
    let sell2 = Order::new(4, Side::Sell, 100, 10);

    matcher1.match_order(buy1, &mut ranks).unwrap();
    matcher2.match_order(buy2, &mut ranks).unwrap();

    let trades1 = matcher1.match_order(sell1, &mut ranks).unwrap();
    let trades2 = matcher2.match_order(sell2, &mut ranks).unwrap();

    assert_ne!(trades1[0].rank, trades2[0].rank);
    assert!(trades1[0].rank < trades2[0].rank || trades1[0].rank > trades2[0].rank);
}

#[test]
fn test_trade_count_tracking() {
    let mut ranks = TradeRanks::new();
    FifoMatcher::reset_trade_rank(&mut ranks);

    let mut matcher = FifoMatcher::new();

    assert_eq!(FifoMatcher::get_trade_count(&ranks), 0);

    let buy = Order::new(1, Side::Buy, 100, 10);
    let sell = Order::new(2, Side::Sell, 100, 5);

    matcher.match_order(buy, &mut ranks).unwrap();
    matcher.match_order(sell, &mut ranks).unwrap();

    assert_eq!(FifoMatcher::get_trade_count(&ranks), 1);
}

#[test]
fn test_multiple_partial_fills_ranking() {
    let mut ranks = TradeRanks::new();
    FifoMatcher::reset_trade_rank(&mut ranks);

    let mut matcher = FifoMatcher::new();

    let buy = Order::new(1, Side::Buy, 100, 20);
    let sell1 = Order::new(2, Side::Sell, 100, 5);
    let sell2 = Order::new(3, Side::Sell, 100, 8);
    let sell3 = Order::new(4, Side::Sell, 100, 7);

    matcher.match_order(buy, &mut ranks).unwrap();

    let trades1 = matcher.match_order(sell1, &mut ranks).unwrap();
    let trades2 = matcher.match_order(sell2, &mut ranks).unwrap();
    let trades3 = matcher.match_order(sell3, &mut ranks).unwrap();

    assert_eq!(trades1.len(), 1);
    assert_eq!(trades2.len(), 1);
    assert_eq!(trades3.len(), 1);
    assert_eq!(trades1[0].rank, 1);
    assert_eq!(trades2[0].rank, 2);
    assert_eq!(trades3[0].rank, 3);

    assert_eq!(FifoMatcher::get_trade_count(&ranks), 3);
}

#[test]
fn test_trade_rank_reset() {
    let mut ranks = TradeRanks::new();
    let mut matcher = FifoMatcher::new();

    let buy = Order::new(1, Side::Buy, 100, 10);
    let sell = Order::new(2, Side::Sell, 100, 10);

    matcher.match_order(buy, &mut ranks).unwrap();
    matcher.match_order(sell, &mut ranks).unwrap();

    let count_before_reset = FifoMatcher::get_trade_count(&ranks);
    assert!(count_before_reset > 0);

    FifoMatcher::reset_trade_rank(&mut ranks);
    assert_eq!(FifoMatcher::get_trade_count(&ranks), 0);

    let buy2 = Order::new(3, Side::Buy, 100, 10);
    let sell2 = Order::new(4, Side::Sell, 100, 10);

    matcher.match_order(buy2, &mut ranks).unwrap();
    let trades = matcher.match_order(sell2, &mut ranks).unwrap();

    assert_eq!(trades[0].rank, 1);
}
