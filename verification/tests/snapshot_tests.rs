use mt_engine_core::book::dense::{DenseBackend, PriceRange};
use mt_engine_core::book::sparse::SparseBackend;
use mt_engine_core::book::OrderBookBackend;
use mt_engine_core::codec::CommandCodec;
use mt_engine_core::engine::sbe_listener::SbeEncoderListener;
use mt_engine_core::engine::Engine;
use mt_engine_core::orders::OrderData;
use mt_engine_core::outcome::CommandOutcome;
use mt_engine_core::sbe::order_flags::OrderFlags;
use mt_engine_core::sbe::order_type::OrderType;
use mt_engine_core::sbe::side::Side;
use mt_engine_core::sbe::time_in_force::TimeInForce;
use mt_engine_core::snapshot::{PriceLevelModel, SnapshotConfig, SnapshotModel};
use mt_engine_core::types::{OrderId, Price, Quantity, SequenceNumber, Timestamp, UserId};

#[test]
fn test_engine_snapshot_recovery() {
    let mut resp_buf = [0u8; 4096];
    let mut cmd_buf = [0u8; 1024];

    let mut engine = Engine::new(SparseBackend::new(), SbeEncoderListener::new(&mut resp_buf));
    let mut codec = CommandCodec::new(&mut cmd_buf);

    engine.execute_submit(&codec.encode_submit(
        0,
        OrderId(1),
        UserId(101),
        Side::buy,
        Price(100),
        Quantity(10),
        SequenceNumber(1),
        Timestamp(1000),
        TimeInForce::gtc,
    ));
    engine.execute_submit(&codec.encode_submit(
        100,
        OrderId(2),
        UserId(102),
        Side::sell,
        Price(110),
        Quantity(20),
        SequenceNumber(2),
        Timestamp(1100),
        TimeInForce::gtc,
    ));

    let snapshot = engine.to_snapshot();
    assert_eq!(snapshot.last_sequence_number.0, 2);

    let mut resp_buf2 = [0u8; 4096];
    let mut engine_sparse = Engine::new(SparseBackend::new(), SbeEncoderListener::new(&mut resp_buf2));
    engine_sparse.from_snapshot(snapshot.clone());

    assert_eq!(engine_sparse.backend.best_bid_price().unwrap().0, 100);
    assert_eq!(engine_sparse.backend.best_ask_price().unwrap().0, 110);

    let dense_config = PriceRange {
        min: Price(1),
        max: Price(1000),
        tick: Price(1),
    };
    let mut resp_buf3 = [0u8; 4096];
    let mut engine_dense = Engine::new(
        DenseBackend::new(dense_config, 1024),
        SbeEncoderListener::new(&mut resp_buf3),
    );
    engine_dense.from_snapshot(snapshot);

    assert_eq!(engine_dense.backend.best_bid_price().unwrap().0, 100);
    assert_eq!(engine_dense.backend.best_ask_price().unwrap().0, 110);
}

#[test]
fn test_snapshot_complex_state_recovery() {
    let mut resp_buf = [0u8; 8192];
    let mut cmd_buf = [0u8; 1024];
    let mut engine = Engine::new(SparseBackend::new(), SbeEncoderListener::new(&mut resp_buf));
    let mut codec = CommandCodec::new(&mut cmd_buf);

    engine.execute_submit(&codec.encode_submit(
        0,
        OrderId(1),
        UserId(1),
        Side::buy,
        Price(100),
        Quantity(10),
        SequenceNumber(1),
        Timestamp(1000),
        TimeInForce::gtc,
    ));

    let mut iceberg_flags = OrderFlags::new(0);
    iceberg_flags.set_iceberg(true);
    engine.execute_submit(&codec.encode_submit_ext(
        100,
        OrderId(2),
        UserId(2),
        Side::sell,
        OrderType::limit,
        Price(110),
        Quantity(100),
        SequenceNumber(2),
        Timestamp(1100),
        TimeInForce::gtc,
        iceberg_flags,
    ));

    engine.execute_submit(&codec.encode_submit_ext(
        200,
        OrderId(3),
        UserId(3),
        Side::buy,
        OrderType::stop,
        Price(120),
        Quantity(10),
        SequenceNumber(3),
        Timestamp(1200),
        TimeInForce::gtc,
        OrderFlags::new(0),
    ));

    // The trade id counter starts at 500 in the restored engine.
    let mut snapshot = engine.to_snapshot();
    snapshot.trade_id_seq = 500;

    let mut resp_buf2 = [0u8; 8192];
    let mut engine_dense = Engine::new(
        DenseBackend::new(
            PriceRange {
                min: Price(1),
                max: Price(1000),
                tick: Price(1),
            },
            1024,
        ),
        SbeEncoderListener::new(&mut resp_buf2),
    );
    engine_dense.from_snapshot(snapshot);

    assert_eq!(engine_dense.get_last_seq().0, 3);
    assert_eq!(engine_dense.to_snapshot().trade_id_seq, 500);

    // The stop buy at 120 is parked again.
    let parked = engine_dense.to_snapshot().condition_orders;
    assert_eq!(parked.len(), 1);
    assert_eq!(parked[0].trigger_price, Price(120));
    assert_eq!(parked[0].side, Side::buy);

    engine_dense.execute_submit(&codec.encode_submit(
        300,
        OrderId(4),
        UserId(4),
        Side::sell,
        Price(100),
        Quantity(10),
        SequenceNumber(4),
        Timestamp(1300),
        TimeInForce::gtc,
    ));

    let last_trade_id = match engine_dense.execute_submit(&codec.encode_submit(
        400,
        OrderId(5),
        UserId(5),
        Side::buy,
        Price(120),
        Quantity(5),
        SequenceNumber(5),
        Timestamp(1400),
        TimeInForce::gtc,
    )) {
        CommandOutcome::Applied(report) => report.trades().last().unwrap().trade_id(),
        _ => panic!("Expected the buy to trade with the iceberg"),
    };

    assert_eq!(engine_dense.get_ltp().0, 110);
    assert_eq!(last_trade_id, 502);
    assert_eq!(engine_dense.to_snapshot().trade_id_seq, 502);
}

#[test]
fn test_snapshot_trigger_threshold_logic() {
    let config = SnapshotConfig {
        count_interval: 10,
        time_interval_ms: 0,
        path_template: "/tmp/test_snap_{seq}.bin".into(),
        compress: false,
    };
    for i in 1..=9u64 {
        assert!(!config.is_due(i, 1000 + i, 0));
    }
    assert!(config.is_due(10, 1010, 0));
}

#[test]
fn test_snapshot_time_trigger() {
    let config = SnapshotConfig {
        count_interval: 1_000_000,
        time_interval_ms: 500,
        path_template: "/tmp/test_snap_{seq}.bin".into(),
        compress: false,
    };
    assert!(!config.is_due(1, 1499, 1000));
    assert!(config.is_due(1, 1500, 1000));
    // Time never counts backwards.
    assert!(!config.is_due(1, 900, 1000));
}

#[test]
fn test_snapshot_config_default() {
    let config = SnapshotConfig::default();
    assert_eq!(config.count_interval, 1_000_000);
    assert_eq!(config.time_interval_ms, 600_000);
    assert_eq!(config.path_template, "./snapshots/snapshot_{seq}.bin.zst");
    assert!(config.compress);
}

fn resting(id: u64, side: Side, price: u64, qty: u64) -> OrderData {
    OrderData {
        order_id: OrderId(id),
        side,
        price: Price(price),
        remaining_qty: Quantity(qty),
        visible_qty: Quantity(qty),
        peak_size: Quantity(qty),
        order_type: OrderType::limit,
        ..OrderData::default()
    }
}

#[test]
fn test_snapshot_levels_show_the_book() {
    let mut resp_buf = [0u8; 4096];
    let mut cmd_buf = [0u8; 1024];
    let mut engine = Engine::new(SparseBackend::new(), SbeEncoderListener::new(&mut resp_buf));
    let mut codec = CommandCodec::new(&mut cmd_buf);
    for (i, (side, price)) in [(Side::buy, 99u64), (Side::buy, 99), (Side::sell, 105)].iter().enumerate() {
        engine.execute_submit(&codec.encode_submit(
            0,
            OrderId(i as u64 + 1),
            UserId(1),
            *side,
            Price(*price),
            Quantity(7),
            SequenceNumber(i as u64 + 1),
            Timestamp(1000),
            TimeInForce::gtc,
        ));
    }
    let snapshot = engine.to_snapshot();
    assert_eq!(snapshot.levels.len(), 2);
    let bid = snapshot.levels.iter().find(|l| l.side == Side::buy).unwrap();
    assert_eq!(bid.price, Price(99));
    assert_eq!(bid.orders.len(), 2);
    assert_eq!(bid.orders[0].order_id, OrderId(1));
    assert_eq!(bid.orders[1].order_id, OrderId(2));
    let ask = snapshot.levels.iter().find(|l| l.side == Side::sell).unwrap();
    assert_eq!(ask.price, Price(105));
    assert_eq!(ask.orders.len(), 1);
}

#[test]
fn test_snapshot_restore_leaves_out_what_the_book_refuses() {
    let model = SnapshotModel {
        last_sequence_number: SequenceNumber(7),
        last_timestamp: Timestamp(70),
        trade_id_seq: 3,
        ltp: Price(50),
        last_order_id: OrderId(9),
        levels: vec![
            PriceLevelModel {
                price: Price(40),
                side: Side::buy,
                orders: vec![resting(1, Side::buy, 40, 5), resting(2, Side::NullVal, 40, 5)],
            },
            PriceLevelModel {
                price: Price(5000),
                side: Side::sell,
                orders: vec![resting(3, Side::sell, 5000, 5)],
            },
        ],
        condition_orders: vec![],
    };
    let config = PriceRange {
        min: Price(1),
        max: Price(100),
        tick: Price(1),
    };
    let mut resp_buf = [0u8; 1024];
    let mut engine = Engine::new(DenseBackend::new(config, 16), SbeEncoderListener::new(&mut resp_buf));
    engine.from_snapshot(model);
    assert_eq!(engine.get_last_seq(), SequenceNumber(7));
    assert_eq!(engine.get_last_ts(), Timestamp(70));
    assert_eq!(engine.get_last_order_id(), OrderId(9));
    assert_eq!(engine.get_ltp(), Price(50));
    assert_eq!(engine.backend.best_bid_price(), Some(Price(40)));
    assert_eq!(engine.backend.best_ask_price(), None);
    assert!(engine.backend.get_order_idx_by_id(OrderId(1)).is_some());
    assert!(engine.backend.get_order_idx_by_id(OrderId(2)).is_none());
    assert!(engine.backend.get_order_idx_by_id(OrderId(3)).is_none());
}

#[test]
fn test_snapshot_round_trip_keeps_every_resting_order() {
    let mut resp_buf = [0u8; 4096];
    let mut cmd_buf = [0u8; 1024];
    let mut engine = Engine::new(SparseBackend::new(), SbeEncoderListener::new(&mut resp_buf));
    let mut codec = CommandCodec::new(&mut cmd_buf);
    let orders = [(Side::buy, 99u64, 7u64), (Side::buy, 99, 3), (Side::buy, 97, 4), (Side::sell, 105, 6), (Side::sell, 108, 2)];
    for (i, (side, price, qty)) in orders.iter().enumerate() {
        engine.execute_submit(&codec.encode_submit(
            0,
            OrderId(i as u64 + 1),
            UserId(1),
            *side,
            Price(*price),
            Quantity(*qty),
            SequenceNumber(i as u64 + 1),
            Timestamp(1000),
            TimeInForce::gtc,
        ));
    }
    let snapshot = engine.to_snapshot();
    let mut resp_buf2 = [0u8; 1024];
    let mut restored = Engine::new(SparseBackend::new(), SbeEncoderListener::new(&mut resp_buf2));
    restored.from_snapshot(snapshot);
    for i in 1..=5u64 {
        let a = engine.backend.get_order_idx_by_id(OrderId(i)).unwrap();
        let b = restored.backend.get_order_idx_by_id(OrderId(i)).unwrap();
        assert_eq!(engine.backend.get_order(a).unwrap().data, restored.backend.get_order(b).unwrap().data);
    }
    assert_eq!(restored.get_depth(Side::buy, Price(97)), 14);
    assert_eq!(restored.get_depth(Side::sell, Price(108)), 8);
}
