use mt_engine_core::book::bitset::L3Bitset;
use mt_engine_core::book::dense::{DenseBackend, PriceRange};
use mt_engine_core::book::sparse::SparseBackend;
use mt_engine_core::book::OrderBookBackend;
use mt_engine_core::orders::{OrderData, RestingOrder};
use mt_engine_core::sbe::side::Side;
use mt_engine_core::types::{OrderId, Price, Quantity};

#[test]
fn test_bitset_set_and_find() {
    let mut bs = L3Bitset::new(10000);
    bs.set(4095);
    bs.set(4096);
    assert_eq!(bs.find_first(10000), Some(4095));
    assert_eq!(bs.find_last(10000), Some(4096));
}

#[test]
fn test_dense_price_level() {
    let config = PriceRange {
        min: Price(100),
        max: Price(200),
        tick: Price(1),
    };
    let backend = DenseBackend::new(config, 1024);
    assert_eq!(backend.price_to_idx(Price(150)), Some(50));
}

#[test]
fn test_dense_level_management() {
    let config = PriceRange {
        min: Price(100),
        max: Price(200),
        tick: Price(1),
    };
    let mut backend = DenseBackend::new(config, 1024);

    let level1 = backend.get_or_create_level(Side::buy, Price(150));
    let _level2 = backend.get_or_create_level(Side::sell, Price(160));

    assert_eq!(backend.best_bid_price(), Some(Price(150)));
    assert_eq!(backend.best_ask_price(), Some(Price(160)));

    backend.remove_empty_level(level1);
    assert_eq!(backend.best_bid_price(), None);
}

#[test]
fn test_dense_order_allocation() {
    let config = PriceRange {
        min: Price(100),
        max: Price(200),
        tick: Price(1),
    };
    let mut backend = DenseBackend::new(config, 1024);

    let mut data = OrderData::default();
    data.order_id = OrderId(42);

    let idx = backend.insert_order(RestingOrder::new(data, 50)).unwrap();
    assert!(idx > 0);
    assert_eq!(backend.get_order_idx_by_id(OrderId(42)), Some(idx));

    let removed = backend.remove_order(idx);
    assert!(removed.is_some());
    assert_eq!(backend.get_order_idx_by_id(OrderId(42)), None);
}

#[test]
fn test_dense_intrusive_list() {
    let config = PriceRange {
        min: Price(100),
        max: Price(200),
        tick: Price(1),
    };
    let mut backend = DenseBackend::new(config, 1024);

    let level = backend.get_or_create_level(Side::buy, Price(150));

    let mut data1 = OrderData::default();
    data1.order_id = OrderId(1);
    data1.remaining_qty = Quantity(10);
    let id1 = backend.insert_order(RestingOrder::new(data1, level)).unwrap();

    let mut data2 = OrderData::default();
    data2.order_id = OrderId(2);
    data2.remaining_qty = Quantity(20);
    let id2 = backend.insert_order(RestingOrder::new(data2, level)).unwrap();

    backend.push_to_level_back(level, id1);
    backend.push_to_level_back(level, id2);

    assert_eq!(backend.level_order_count(level), 2);
    assert_eq!(backend.level_total_qty(level), 30);

    assert_eq!(backend.pop_from_level(level), Some(id1));
    assert_eq!(backend.level_order_count(level), 1);

    backend.remove_from_level(level, id2);
    assert_eq!(backend.level_order_count(level), 0);
}

fn order(id: u64, qty: u64) -> OrderData {
    let mut data = OrderData::default();
    data.order_id = OrderId(id);
    data.remaining_qty = Quantity(qty);
    data.visible_qty = Quantity(qty);
    data
}

#[test]
fn test_sparse_level_management() {
    let mut backend = SparseBackend::new();
    let level1 = backend.get_or_create_level(Side::buy, Price(150));
    let level2 = backend.get_or_create_level(Side::sell, Price(160));
    assert_ne!(level1, level2);
    assert_eq!(backend.get_or_create_level(Side::buy, Price(150)), level1);
    assert_eq!(backend.best_bid_price(), Some(Price(150)));
    assert_eq!(backend.best_ask_price(), Some(Price(160)));
    assert_eq!(backend.get_level(Price(160)), Some(level2));
    assert_eq!(backend.get_level(Price(170)), None);

    backend.remove_empty_level(level1);
    assert_eq!(backend.best_bid_price(), None);
    assert_eq!(backend.best_ask_price(), Some(Price(160)));
}

#[test]
fn test_sparse_queue_order_and_totals() {
    let mut backend = SparseBackend::new();
    let level = backend.get_or_create_level(Side::buy, Price(150));
    let id1 = backend.insert_order(RestingOrder::new(order(1, 10), level)).unwrap();
    let id2 = backend.insert_order(RestingOrder::new(order(2, 20), level)).unwrap();
    let id3 = backend.insert_order(RestingOrder::new(order(3, 5), level)).unwrap();
    backend.push_to_level_back(level, id1);
    backend.push_to_level_back(level, id2);
    backend.push_to_level_front(level, id3);

    assert_eq!(backend.level_order_count(level), 3);
    assert_eq!(backend.level_total_qty(level), 35);
    assert_eq!(backend.get_order_idx_by_id(OrderId(2)), Some(id2));

    // The order put in front comes out first.
    assert_eq!(backend.pop_from_level(level), Some(id3));
    assert_eq!(backend.level_total_qty(level), 30);

    backend.remove_from_level(level, id2);
    assert_eq!(backend.level_order_count(level), 1);
    assert_eq!(backend.level_total_qty(level), 10);

    backend.modify_order_qty(id1, Quantity(4));
    assert_eq!(backend.level_total_qty(level), 4);
    assert_eq!(backend.get_order(id1).unwrap().data.remaining_qty, Quantity(4));
    assert_eq!(backend.get_order(id1).unwrap().data.visible_qty, Quantity(4));

    assert_eq!(backend.pop_from_level(level), Some(id1));
    assert_eq!(backend.pop_from_level(level), None);
    let removed = backend.remove_order(id1).unwrap();
    assert_eq!(removed.data.order_id, OrderId(1));
    assert_eq!(backend.get_order_idx_by_id(OrderId(1)), None);
}

#[test]
fn test_sparse_depth_counts_reachable_levels() {
    let mut backend = SparseBackend::new();
    for (i, (side, price, qty)) in [
        (Side::buy, 99u64, 1u64),
        (Side::buy, 100, 2),
        (Side::buy, 101, 4),
        (Side::sell, 102, 8),
        (Side::sell, 103, 16),
        (Side::sell, 104, 32),
    ]
    .iter()
    .enumerate()
    {
        let level = backend.get_or_create_level(*side, Price(*price));
        let idx = backend
            .insert_order(RestingOrder::new(order(i as u64 + 1, *qty), level))
            .unwrap();
        backend.push_to_level_back(level, idx);
    }
    // Bids at or above the limit.
    assert_eq!(backend.get_total_depth(Side::buy, Price(100)), 6);
    assert_eq!(backend.get_total_depth(Side::buy, Price(102)), 0);
    // Asks at or below the limit.
    assert_eq!(backend.get_total_depth(Side::sell, Price(103)), 24);
    assert_eq!(backend.get_total_depth(Side::sell, Price(101)), 0);
    assert_eq!(backend.get_total_depth(Side::NullVal, Price(100)), 0);
}

#[test]
fn test_dense_depth_counts_reachable_levels() {
    let config = PriceRange {
        min: Price(90),
        max: Price(110),
        tick: Price(1),
    };
    let mut backend = DenseBackend::new(config, 64);
    for (i, (side, price, qty)) in [
        (Side::buy, 99u64, 1u64),
        (Side::buy, 100, 2),
        (Side::buy, 101, 4),
        (Side::sell, 102, 8),
        (Side::sell, 103, 16),
        (Side::sell, 104, 32),
    ]
    .iter()
    .enumerate()
    {
        let level = backend.get_or_create_level(*side, Price(*price));
        let idx = backend
            .insert_order(RestingOrder::new(order(i as u64 + 1, *qty), level))
            .unwrap();
        backend.push_to_level_back(level, idx);
    }
    assert_eq!(backend.get_total_depth(Side::buy, Price(100)), 6);
    assert_eq!(backend.get_total_depth(Side::sell, Price(103)), 24);
}

#[test]
fn test_dense_price_index_round_trip() {
    let config = PriceRange {
        min: Price(100),
        max: Price(200),
        tick: Price(5),
    };
    let backend = DenseBackend::new(config, 16);
    assert_eq!(backend.price_to_idx(Price(150)), Some(10));
    assert_eq!(backend.idx_to_price(10), Price(150));
    assert_eq!(backend.price_to_idx(Price(99)), None);
    assert_eq!(backend.price_to_idx(Price(201)), None);
    assert!(backend.validate_price(Price(100)));
    assert!(!backend.validate_price(Price(201)));
}

#[test]
fn test_bitset_unset_and_empty() {
    let mut bs = L3Bitset::new(300);
    assert_eq!(bs.find_first(300), None);
    bs.set(7);
    bs.set(200);
    assert!(bs.test(7));
    assert!(!bs.test(8));
    bs.unset(7);
    assert_eq!(bs.find_first(300), Some(200));
    assert_eq!(bs.find_last(300), Some(200));
    bs.clear();
    assert_eq!(bs.find_last(300), None);
}
