use order_matching_engine::errors::AlgorithmError;
use order_matching_engine::fifo::FifoMatcher;
use order_matching_engine::hybrid::{HybridConfig, HybridMatcher};
use order_matching_engine::matching_book::MatchingBook;
use order_matching_engine::order::{Order, Side};
use order_matching_engine::pro_rata::{allocate, ProRataMatcher};
use order_matching_engine::trade::{Trade, TradeRanks};

fn summary(trades: &[Trade]) -> Vec<(u64, u64, u64, u64)> {
    trades.iter().map(|t| (t.buy_id, t.sell_id, t.price, t.quantity)).collect()
}

#[test]
fn fifo_basic_partial_fill() {
    let mut ranks = TradeRanks::new();
    let mut m = FifoMatcher::new();
    assert!(m.match_order(Order::new(1, Side::Sell, 100, 50), &mut ranks).unwrap().is_empty());
    let trades = m.match_order(Order::new(2, Side::Buy, 100, 30), &mut ranks).unwrap();
    assert_eq!(summary(&trades), vec![(2, 1, 100, 30)]);
    let ask = m.best_ask().unwrap();
    assert_eq!((ask.id, ask.quantity), (1, 20));
    assert!(m.best_bid().is_none());
}

#[test]
fn fifo_fills_across_resting_orders() {
    let mut ranks = TradeRanks::new();
    let mut m = FifoMatcher::new();
    for (id, q) in [(7, 30), (8, 40), (9, 25)] {
        m.match_order(Order::new(id, Side::Sell, 101, q), &mut ranks).unwrap();
    }
    let trades = m.match_order(Order::new(10, Side::Buy, 101, 80), &mut ranks).unwrap();
    assert_eq!(summary(&trades), vec![(10, 7, 101, 30), (10, 8, 101, 40), (10, 9, 101, 10)]);
    assert_eq!(m.ask_depth(), 1);
    let ask = m.best_ask().unwrap();
    assert_eq!((ask.id, ask.quantity), (9, 15));
    assert_eq!(m.bid_depth(), 0);
}

#[test]
fn pro_rata_allocation_scenario() {
    let mut ranks = TradeRanks::new();
    let mut m = ProRataMatcher::new();
    m.match_order(Order::new(11, Side::Sell, 50, 50), &mut ranks);
    m.match_order(Order::new(12, Side::Sell, 50, 150), &mut ranks);
    let trades = m.match_order(Order::new(13, Side::Buy, 50, 100), &mut ranks);
    assert_eq!(summary(&trades), vec![(13, 11, 50, 25), (13, 12, 50, 75)]);
    let rest: Vec<(u64, u64)> = m.asks_iter().iter().map(|o| (o.id, o.quantity)).collect();
    assert_eq!(rest, vec![(11, 25), (12, 75)]);
    assert_eq!(m.bid_depth(), 0);
}

#[test]
fn pro_rata_remainder_scenario() {
    let mut ranks = TradeRanks::new();
    let mut m = ProRataMatcher::new();
    for id in 1..=3 {
        m.match_order(Order::new(id, Side::Sell, 10, 10), &mut ranks);
    }
    let trades = m.match_order(Order::new(4, Side::Buy, 10, 11), &mut ranks);
    assert_eq!(summary(&trades), vec![(4, 1, 10, 4), (4, 2, 10, 4), (4, 3, 10, 3)]);
}

#[test]
fn hybrid_even_split_scenario() {
    let mut ranks = TradeRanks::new();
    let mut m = HybridMatcher::new_with_config(HybridConfig { fifo_basis_points: 5000 });
    for (id, q) in [(14, 40), (15, 60), (16, 100)] {
        m.match_order(Order::new(id, Side::Sell, 75, q), &mut ranks);
    }
    let trades = m.match_order(Order::new(17, Side::Buy, 75, 100), &mut ranks);
    assert_eq!(
        summary(&trades),
        vec![(17, 14, 75, 40), (17, 15, 75, 10), (17, 15, 75, 17), (17, 16, 75, 33)]
    );
    let rest: Vec<(u64, u64)> = m.asks_iter().iter().map(|o| (o.id, o.quantity)).collect();
    assert_eq!(rest, vec![(15, 33), (16, 67)]);
}

#[test]
fn non_crossing_orders_rest() {
    let mut ranks = TradeRanks::new();
    let mut m = FifoMatcher::new();
    assert!(m.match_order(Order::new(1, Side::Sell, 101, 10), &mut ranks).unwrap().is_empty());
    assert!(m.match_order(Order::new(2, Side::Buy, 100, 10), &mut ranks).unwrap().is_empty());
    assert_eq!(m.best_ask().unwrap().id, 1);
    assert_eq!(m.best_bid().unwrap().id, 2);
    assert!(m.best_bid().unwrap().price < m.best_ask().unwrap().price);
}

#[test]
fn fifo_rejects_zero_quantity_and_zero_price() {
    let mut ranks = TradeRanks::new();
    let mut m = FifoMatcher::new();
    let r = m.match_order(Order::new(1, Side::Buy, 100, 0), &mut ranks);
    assert!(matches!(r, Err(AlgorithmError::InvalidOrder(_))));
    let r = m.match_order(Order::new(2, Side::Sell, 0, 5), &mut ranks);
    assert!(matches!(r, Err(AlgorithmError::InvalidOrder(_))));
    assert!(m.is_empty());
    assert_eq!(ranks.trade_count(), 0);
}

#[test]
fn pro_rata_and_hybrid_ignore_invalid_orders() {
    let mut ranks = TradeRanks::new();
    let mut p = ProRataMatcher::new();
    assert!(p.match_order(Order::new(1, Side::Buy, 0, 5), &mut ranks).is_empty());
    assert!(p.match_order(Order::new(2, Side::Buy, 5, 0), &mut ranks).is_empty());
    assert!(p.is_empty());
    let mut h = HybridMatcher::new_with_config(HybridConfig { fifo_basis_points: 10001 });
    assert!(h.match_order(Order::new(3, Side::Buy, 5, 5), &mut ranks).is_empty());
    assert!(h.is_empty());
}

#[test]
fn resting_orders_keep_price_time_priority() {
    let mut ranks = TradeRanks::new();
    let mut m = FifoMatcher::new();
    m.match_order(Order::new(1, Side::Buy, 100, 5), &mut ranks).unwrap();
    m.match_order(Order::new(2, Side::Buy, 102, 5), &mut ranks).unwrap();
    m.match_order(Order::new(3, Side::Buy, 100, 5), &mut ranks).unwrap();
    m.match_order(Order::new(4, Side::Buy, 101, 5), &mut ranks).unwrap();
    let ids: Vec<u64> = m.bids_iter().iter().map(|o| o.id).collect();
    assert_eq!(ids, vec![2, 4, 1, 3]);
    m.match_order(Order::new(5, Side::Sell, 103, 1), &mut ranks).unwrap();
    m.match_order(Order::new(6, Side::Sell, 104, 1), &mut ranks).unwrap();
    m.match_order(Order::new(7, Side::Sell, 103, 1), &mut ranks).unwrap();
    let ids: Vec<u64> = m.asks_iter().iter().map(|o| o.id).collect();
    assert_eq!(ids, vec![5, 7, 6]);
}

#[test]
fn fifo_time_priority_at_one_price() {
    let mut ranks = TradeRanks::new();
    let mut m = FifoMatcher::new();
    m.match_order(Order::new(1, Side::Buy, 100, 10), &mut ranks).unwrap();
    m.match_order(Order::new(2, Side::Buy, 100, 10), &mut ranks).unwrap();
    let trades = m.match_order(Order::new(3, Side::Sell, 100, 12), &mut ranks).unwrap();
    assert_eq!(summary(&trades), vec![(1, 3, 100, 10), (2, 3, 100, 2)]);
}

#[test]
fn fifo_conserves_quantity_and_prints_at_resting_price() {
    let mut ranks = TradeRanks::new();
    let mut m = FifoMatcher::new();
    m.match_order(Order::new(1, Side::Sell, 99, 10), &mut ranks).unwrap();
    m.match_order(Order::new(2, Side::Sell, 100, 10), &mut ranks).unwrap();
    m.match_order(Order::new(3, Side::Sell, 105, 10), &mut ranks).unwrap();
    let before: u64 = m.asks_iter().iter().map(|o| o.quantity).sum();
    let trades = m.match_order(Order::new(4, Side::Buy, 101, 25), &mut ranks).unwrap();
    let after: u64 = m.asks_iter().iter().map(|o| o.quantity).sum();
    let filled: u64 = trades.iter().map(|t| t.quantity).sum();
    assert_eq!(filled, 20);
    assert_eq!(before - after, filled);
    assert_eq!(summary(&trades), vec![(4, 1, 99, 10), (4, 2, 100, 10)]);
    let bid = m.best_bid().unwrap();
    assert_eq!((bid.id, bid.price, bid.quantity), (4, 101, 5));
    assert!(bid.price < m.best_ask().unwrap().price);
    assert!(trades.iter().all(|t| t.quantity > 0));
}

#[test]
fn ranks_rise_across_books_and_submissions() {
    let mut ranks = TradeRanks::new();
    let mut a = FifoMatcher::new();
    let mut b = ProRataMatcher::new();
    a.match_order(Order::new(1, Side::Sell, 10, 5), &mut ranks).unwrap();
    a.match_order(Order::new(2, Side::Sell, 10, 5), &mut ranks).unwrap();
    b.match_order(Order::new(3, Side::Buy, 10, 5), &mut ranks);
    let t1 = a.match_order(Order::new(4, Side::Buy, 10, 10), &mut ranks).unwrap();
    let t2 = b.match_order(Order::new(5, Side::Sell, 10, 5), &mut ranks);
    let all: Vec<u64> = t1.iter().chain(t2.iter()).map(|t| t.rank).collect();
    assert_eq!(all, vec![1, 2, 3]);
    assert_eq!(ranks.trade_count(), 3);
}

#[test]
fn allocation_formula_values() {
    assert_eq!(allocate(&vec![50, 150], 100), vec![25, 75]);
    assert_eq!(allocate(&vec![10, 10, 10], 11), vec![4, 4, 3]);
    assert_eq!(allocate(&vec![50, 100], 50), vec![17, 33]);
    assert_eq!(allocate(&vec![7], 7), vec![7]);
    assert_eq!(allocate(&vec![1, 1, 1, 1], 3), vec![1, 1, 1, 0]);
    let big = allocate(&vec![u64::MAX, u64::MAX], u64::MAX);
    assert_eq!(big.iter().map(|&a| a as u128).sum::<u128>(), u64::MAX as u128);
}

#[test]
fn allocation_stays_within_one_of_proportion() {
    let sizes = vec![3, 5, 7, 11, 13];
    let total: u64 = sizes.iter().sum();
    for q in 0..=total {
        let a = allocate(&sizes, q);
        assert_eq!(a.iter().sum::<u64>(), q);
        for (i, &s) in sizes.iter().enumerate() {
            let floor = q * s / total;
            assert!(floor <= a[i] && a[i] <= floor + 1 && a[i] <= s);
        }
        let mut seen_floor = false;
        for (i, &s) in sizes.iter().enumerate() {
            let bonus = a[i] - q * s / total;
            if bonus == 0 {
                seen_floor = true;
            } else {
                assert!(!seen_floor);
            }
        }
    }
}

#[test]
fn pro_rata_does_not_spill_to_next_level() {
    let mut ranks = TradeRanks::new();
    let mut m = ProRataMatcher::new();
    m.match_order(Order::new(1, Side::Sell, 50, 10), &mut ranks);
    m.match_order(Order::new(2, Side::Sell, 51, 10), &mut ranks);
    let trades = m.match_order(Order::new(3, Side::Buy, 60, 30), &mut ranks);
    assert_eq!(summary(&trades), vec![(3, 1, 50, 10)]);
    let ask = m.best_ask().unwrap();
    assert_eq!((ask.id, ask.quantity), (2, 10));
    let bid = m.best_bid().unwrap();
    assert_eq!((bid.id, bid.price, bid.quantity), (3, 60, 20));
}

#[test]
fn pro_rata_sell_against_bids() {
    let mut ranks = TradeRanks::new();
    let mut m = ProRataMatcher::new();
    m.match_order(Order::new(1, Side::Buy, 20, 30), &mut ranks);
    m.match_order(Order::new(2, Side::Buy, 20, 10), &mut ranks);
    m.match_order(Order::new(3, Side::Buy, 19, 10), &mut ranks);
    let trades = m.match_order(Order::new(4, Side::Sell, 20, 8), &mut ranks);
    assert_eq!(summary(&trades), vec![(1, 4, 20, 6), (2, 4, 20, 2)]);
    let bids: Vec<(u64, u64)> = m.bids_iter().iter().map(|o| (o.id, o.quantity)).collect();
    assert_eq!(bids, vec![(1, 24), (2, 8), (3, 10)]);
}

#[test]
fn hybrid_phase_split_bounds() {
    let mut ranks = TradeRanks::new();
    let mut m = HybridMatcher::new_with_config(HybridConfig { fifo_basis_points: 2500 });
    m.match_order(Order::new(1, Side::Sell, 30, 100), &mut ranks);
    m.match_order(Order::new(2, Side::Sell, 30, 100), &mut ranks);
    let trades = m.match_order(Order::new(3, Side::Buy, 30, 40), &mut ranks);
    // FIFO takes floor(40 * 0.25) = 10 from id 1; pro rata shares 30 over (90, 100):
    // floors 14 and 15, and the leftover unit goes to the earlier order.
    assert_eq!(summary(&trades), vec![(3, 1, 30, 10), (3, 1, 30, 15), (3, 2, 30, 15)]);
    let filled: u64 = trades.iter().map(|t| t.quantity).sum();
    assert_eq!(filled, 40);
}

#[test]
fn hybrid_default_is_even_and_rests_overflow() {
    assert_eq!(HybridConfig::default().fifo_basis_points, 5000);
    let mut ranks = TradeRanks::new();
    let mut m = HybridMatcher::default();
    m.match_order(Order::new(1, Side::Buy, 40, 4), &mut ranks);
    let trades = m.match_order(Order::new(2, Side::Sell, 40, 10), &mut ranks);
    assert_eq!(summary(&trades), vec![(1, 2, 40, 4)]);
    let ask = m.best_ask().unwrap();
    assert_eq!((ask.id, ask.quantity), (2, 6));
    assert_eq!(m.bid_depth(), 0);
}

#[test]
fn matching_book_dispatches_by_discipline() {
    let mut ranks = TradeRanks::new();
    let mut book = MatchingBook::ProRata(ProRataMatcher::default());
    book.match_order(Order::new(1, Side::Sell, 10, 5), &mut ranks).unwrap();
    assert_eq!((book.bid_depth(), book.ask_depth()), (0, 1));
    let r = book.match_order(Order::new(2, Side::Buy, 10, 0), &mut ranks);
    assert!(r.unwrap().is_empty());
    let mut fifo = MatchingBook::Fifo(FifoMatcher::default());
    assert!(fifo.match_order(Order::new(3, Side::Buy, 10, 0), &mut ranks).is_err());
}

#[test]
fn order_helpers() {
    let mut o = Order::new(1, Side::Buy, 1050, 100);
    assert!(o.is_buy() && !o.is_sell() && !o.is_empty());
    assert_eq!(o.total_value(), 105000);
    o.reduce_quantity(30);
    assert_eq!(o.quantity, 70);
    o.reduce_quantity(70);
    assert!(o.is_empty());
    assert!(o.timestamp > 0);
    let big = Order::new(2, Side::Sell, u64::MAX, u64::MAX);
    assert_eq!(big.total_value(), u64::MAX as u128 * u64::MAX as u128);
}

#[test]
fn clear_drops_every_order() {
    let mut ranks = TradeRanks::new();
    let mut m = HybridMatcher::new();
    m.match_order(Order::new(1, Side::Sell, 10, 5), &mut ranks);
    m.match_order(Order::new(2, Side::Buy, 9, 5), &mut ranks);
    assert!(!m.is_empty());
    m.clear();
    assert!(m.is_empty());
    assert!(m.best_bid().is_none() && m.best_ask().is_none());
}
