use mt_engine_core::book::sparse::SparseBackend;
use mt_engine_core::book::OrderBookBackend;
use mt_engine_core::codec::CommandCodec;
use mt_engine_core::engine::events::OrderEventListener;
use mt_engine_core::engine::sbe_listener::SbeEncoderListener;
use mt_engine_core::engine::Engine;
use mt_engine_core::orders::OrderData;
use mt_engine_core::outcome::{CommandFailure, CommandOutcome, CommandReport, OrderStatus, Trade};
use mt_engine_core::sbe::control_op::ControlOp;
use mt_engine_core::sbe::side::Side;
use mt_engine_core::sbe::time_in_force::TimeInForce;
use mt_engine_core::types::{OrderId, Price, Quantity, SequenceNumber, Timestamp, UserId};

#[test]
fn test_trade_written_by_listener_reads_back() {
    let mut buffer = vec![0u8; 1024];
    let mut offset = 0;
    let maker = OrderData {
        order_id: OrderId(31),
        side: Side::sell,
        ..Default::default()
    };
    let taker = OrderData {
        order_id: OrderId(32),
        side: Side::buy,
        ..Default::default()
    };
    {
        let mut listener = SbeEncoderListener::new(&mut buffer);
        listener.on_trade(&maker, &taker, Quantity(4), Price(77), Timestamp(9), SequenceNumber(2), 5, &mut offset);
        listener.on_trade(&maker, &taker, Quantity(6), Price(78), Timestamp(9), SequenceNumber(2), 6, &mut offset);
    }
    let report = CommandReport {
        order_id: OrderId(32),
        status: OrderStatus::Filled,
        timestamp: Timestamp(9),
        payload: &buffer[..offset],
    };
    assert_eq!(
        report.trades(),
        vec![
            Trade {
                trade_id: 5,
                maker_order_id: 31,
                taker_order_id: 32,
                price: 77,
                quantity: 4,
            },
            Trade {
                trade_id: 6,
                maker_order_id: 31,
                taker_order_id: 32,
                price: 78,
                quantity: 6,
            },
        ]
    );
    let mut reports = report.execution_reports();
    assert_eq!(reports.next().unwrap().order_id(), 31);
    assert_eq!(reports.next().unwrap().order_id(), 32);
    assert_eq!(reports.next().unwrap().order_id(), 31);
    assert_eq!(reports.next().unwrap().order_id(), 32);
    assert!(reports.next().is_none());
}

#[test]
fn test_codec_cancel_and_amend_read_back() {
    let mut cmd_buf = [0u8; 256];
    let mut codec = CommandCodec::new(&mut cmd_buf);
    {
        let cancel = codec.encode_cancel(0, OrderId(12), SequenceNumber(3), Timestamp(44));
        assert_eq!(cancel.order_id(), 12);
        assert_eq!(cancel.sequence_number(), 3);
        assert_eq!(cancel.timestamp(), 44);
    }
    let amend = codec.encode_amend(64, OrderId(13), Price(250), Quantity(8), SequenceNumber(4), Timestamp(45));
    assert_eq!(amend.order_id(), 13);
    assert_eq!(amend.new_price(), 250);
    assert_eq!(amend.new_quantity(), 8);
    assert_eq!(amend.sequence_number(), 4);
    assert_eq!(amend.timestamp(), 45);
}

#[test]
fn test_refusals() {
    let mut resp_buf = [0u8; 1024];
    let mut cmd_buf = [0u8; 1024];
    let mut engine = Engine::new(SparseBackend::new(), SbeEncoderListener::new(&mut resp_buf));
    let mut codec = CommandCodec::new(&mut cmd_buf);

    engine.execute_submit(&codec.encode_submit(
        0,
        OrderId(5),
        UserId(1),
        Side::buy,
        Price(100),
        Quantity(1),
        SequenceNumber(1),
        Timestamp(10),
        TimeInForce::gtc,
    ));

    // An order id that is not above every id seen so far.
    match engine.execute_submit(&codec.encode_submit(
        0,
        OrderId(5),
        UserId(1),
        Side::buy,
        Price(100),
        Quantity(1),
        SequenceNumber(2),
        Timestamp(11),
        TimeInForce::gtc,
    )) {
        CommandOutcome::Rejected(CommandFailure::DuplicateOrderId) => {}
        _ => panic!("Expected DuplicateOrderId"),
    }

    // An order that is neither a buy nor a sell.
    match engine.execute_submit(&codec.encode_submit(
        0,
        OrderId(6),
        UserId(1),
        Side::NullVal,
        Price(100),
        Quantity(1),
        SequenceNumber(3),
        Timestamp(12),
        TimeInForce::gtc,
    )) {
        CommandOutcome::Rejected(CommandFailure::InvalidOrder) => {}
        _ => panic!("Expected InvalidOrder"),
    }

    // Cancelling an order the engine does not know.
    match engine.execute_cancel(&codec.encode_cancel(0, OrderId(99), SequenceNumber(4), Timestamp(13))) {
        CommandOutcome::Rejected(CommandFailure::OrderNotFound) => {}
        _ => panic!("Expected OrderNotFound"),
    }

    // A shutdown halts the engine, which then refuses every order command.
    match engine.execute_control(&codec.encode_control(0, ControlOp::shutdown, SequenceNumber(5), Timestamp(14))) {
        CommandOutcome::Applied(report) => assert_eq!(report.status, OrderStatus::Cancelled),
        _ => panic!("Expected the shutdown to apply"),
    }
    match engine.execute_submit(&codec.encode_submit(
        0,
        OrderId(7),
        UserId(1),
        Side::sell,
        Price(100),
        Quantity(1),
        SequenceNumber(6),
        Timestamp(15),
        TimeInForce::gtc,
    )) {
        CommandOutcome::Rejected(CommandFailure::SystemHalted) => {}
        _ => panic!("Expected SystemHalted"),
    }
    match engine.execute_cancel(&codec.encode_cancel(0, OrderId(5), SequenceNumber(7), Timestamp(16))) {
        CommandOutcome::Rejected(CommandFailure::SystemHalted) => {}
        _ => panic!("Expected SystemHalted"),
    }
    // The halted engine kept its book.
    assert_eq!(engine.backend.best_bid_price(), Some(Price(100)));
}

#[test]
fn test_cancel_takes_the_order_out() {
    let mut resp_buf = [0u8; 1024];
    let mut cmd_buf = [0u8; 1024];
    let mut engine = Engine::new(SparseBackend::new(), SbeEncoderListener::new(&mut resp_buf));
    let mut codec = CommandCodec::new(&mut cmd_buf);
    engine.execute_submit(&codec.encode_submit(
        0,
        OrderId(1),
        UserId(1),
        Side::sell,
        Price(120),
        Quantity(3),
        SequenceNumber(1),
        Timestamp(10),
        TimeInForce::gtc,
    ));
    assert!(engine.backend.get_order_idx_by_id(OrderId(1)).is_some());
    engine.execute_cancel(&codec.encode_cancel(0, OrderId(1), SequenceNumber(2), Timestamp(11)));
    assert!(engine.backend.get_order_idx_by_id(OrderId(1)).is_none());
    assert_eq!(engine.backend.best_ask_price(), None);
    assert_eq!(engine.get_depth(Side::sell, Price(1000)), 0);
}

#[test]
fn test_market_sweep_reports_each_level() {
    let mut resp_buf = [0u8; 4096];
    let mut cmd_buf = [0u8; 1024];
    let mut engine = Engine::new(SparseBackend::new(), SbeEncoderListener::new(&mut resp_buf));
    let mut codec = CommandCodec::new(&mut cmd_buf);
    for (i, price) in [101u64, 102, 103].iter().enumerate() {
        engine.execute_submit(&codec.encode_submit(
            0,
            OrderId(i as u64 + 1),
            UserId(1),
            Side::sell,
            Price(*price),
            Quantity(2),
            SequenceNumber(i as u64 + 1),
            Timestamp(10),
            TimeInForce::gtc,
        ));
    }
    assert_eq!(engine.get_depth(Side::sell, Price(102)), 4);
    match engine.execute_submit(&codec.encode_market(
        0,
        OrderId(10),
        UserId(2),
        Side::buy,
        Quantity(5),
        SequenceNumber(10),
        Timestamp(11),
    )) {
        CommandOutcome::Applied(report) => {
            assert_eq!(report.status, OrderStatus::Filled);
            let trades = report.trades();
            let prices: Vec<u64> = trades.iter().map(|t| t.price()).collect();
            let quantities: Vec<u64> = trades.iter().map(|t| t.quantity()).collect();
            assert_eq!(prices, vec![101, 102, 103]);
            assert_eq!(quantities, vec![2, 2, 1]);
            assert_eq!(trades[2].taker_order_id(), 10);
        }
        _ => panic!("Expected the market order to fill"),
    }
    assert_eq!(engine.get_ltp(), Price(103));
    assert_eq!(engine.get_depth(Side::sell, Price(1000)), 1);
}

#[test]
fn test_limit_sweep_stops_at_its_price() {
    let mut resp_buf = [0u8; 4096];
    let mut cmd_buf = [0u8; 1024];
    let mut engine = Engine::new(SparseBackend::new(), SbeEncoderListener::new(&mut resp_buf));
    let mut codec = CommandCodec::new(&mut cmd_buf);
    for (i, price) in [101u64, 102, 110].iter().enumerate() {
        engine.execute_submit(&codec.encode_submit(
            0,
            OrderId(i as u64 + 1),
            UserId(1),
            Side::sell,
            Price(*price),
            Quantity(10),
            SequenceNumber(i as u64 + 1),
            Timestamp(10),
            TimeInForce::gtc,
        ));
    }
    match engine.execute_submit(&codec.encode_submit(
        0,
        OrderId(10),
        UserId(2),
        Side::buy,
        Price(105),
        Quantity(100),
        SequenceNumber(10),
        Timestamp(11),
        TimeInForce::gtc,
    )) {
        CommandOutcome::Applied(report) => {
            assert_eq!(report.status, OrderStatus::PartiallyFilled);
            let prices: Vec<u64> = report.trades().iter().map(|t| t.price()).collect();
            assert_eq!(prices, vec![101, 102]);
        }
        _ => panic!("Expected the buy to rest after two fills"),
    }
    assert_eq!(engine.backend.best_ask_price(), Some(Price(110)));
    assert_eq!(engine.backend.best_bid_price(), Some(Price(105)));
    assert_eq!(engine.get_depth(Side::buy, Price(105)), 80);
}

#[test]
fn test_fok_taken_is_filled_across_levels() {
    let mut resp_buf = [0u8; 4096];
    let mut cmd_buf = [0u8; 1024];
    let mut engine = Engine::new(SparseBackend::new(), SbeEncoderListener::new(&mut resp_buf));
    let mut codec = CommandCodec::new(&mut cmd_buf);
    for (i, price) in [101u64, 102, 103].iter().enumerate() {
        engine.execute_submit(&codec.encode_submit(
            0,
            OrderId(i as u64 + 1),
            UserId(1),
            Side::sell,
            Price(*price),
            Quantity(5),
            SequenceNumber(i as u64 + 1),
            Timestamp(10),
            TimeInForce::gtc,
        ));
    }
    assert_eq!(engine.get_depth(Side::sell, Price(102)), 10);
    match engine.execute_submit(&codec.encode_submit(
        0,
        OrderId(10),
        UserId(2),
        Side::buy,
        Price(102),
        Quantity(8),
        SequenceNumber(10),
        Timestamp(11),
        TimeInForce::fok,
    )) {
        CommandOutcome::Applied(report) => {
            assert_eq!(report.status, OrderStatus::Filled);
            let fills: Vec<(u64, u64)> = report.trades().iter().map(|t| (t.price(), t.quantity())).collect();
            assert_eq!(fills, vec![(101, 5), (102, 3)]);
        }
        _ => panic!("Expected the fill-or-kill order to fill"),
    }
    match engine.execute_submit(&codec.encode_submit(
        0,
        OrderId(11),
        UserId(2),
        Side::buy,
        Price(102),
        Quantity(3),
        SequenceNumber(11),
        Timestamp(12),
        TimeInForce::fok,
    )) {
        CommandOutcome::Rejected(e) => assert_eq!(e, CommandFailure::LiquidityInsufficient),
        _ => panic!("Expected the fill-or-kill order to be refused"),
    }
    assert_eq!(engine.get_depth(Side::sell, Price(103)), 7);
}

#[test]
fn test_book_stays_uncrossed_through_commands() {
    let mut resp_buf = [0u8; 4096];
    let mut cmd_buf = [0u8; 1024];
    let mut engine = Engine::new(SparseBackend::new(), SbeEncoderListener::new(&mut resp_buf));
    let mut codec = CommandCodec::new(&mut cmd_buf);
    let orders = [(Side::buy, 100u64, 5u64), (Side::sell, 104, 5), (Side::sell, 99, 3), (Side::buy, 106, 4)];
    for (i, (side, price, qty)) in orders.iter().enumerate() {
        engine.execute_submit(&codec.encode_submit(
            0,
            OrderId(i as u64 + 1),
            UserId(1),
            *side,
            Price(*price),
            Quantity(*qty),
            SequenceNumber(i as u64 + 1),
            Timestamp(10),
            TimeInForce::gtc,
        ));
        if let (Some(b), Some(a)) = (engine.backend.best_bid_price(), engine.backend.best_ask_price()) {
            assert!(b.0 < a.0);
        }
    }
    // the sell at 99 traded 3 against the bid at 100, the buy at 106 took 4 of the ask at 104
    assert_eq!(engine.backend.best_bid_price(), Some(Price(100)));
    assert_eq!(engine.backend.best_ask_price(), Some(Price(104)));
    assert_eq!(engine.get_depth(Side::sell, Price(104)), 1);
    let amend = codec.encode_amend(0, OrderId(1), Price(103), Quantity(2), SequenceNumber(10), Timestamp(11));
    assert!(matches!(engine.execute_amend(&amend), CommandOutcome::Applied(_)));
    engine.execute_submit(&codec.encode_submit(
        0,
        OrderId(20),
        UserId(2),
        Side::sell,
        Price(107),
        Quantity(1),
        SequenceNumber(11),
        Timestamp(12),
        TimeInForce::gtc,
    ));
    let b = engine.backend.best_bid_price().unwrap();
    let a = engine.backend.best_ask_price().unwrap();
    assert!(b.0 < a.0);
    engine.execute_cancel(&codec.encode_cancel(0, OrderId(2), SequenceNumber(12), Timestamp(13)));
    assert_eq!(engine.backend.best_bid_price(), Some(Price(103)));
    assert_eq!(engine.backend.best_ask_price(), Some(Price(107)));
}
