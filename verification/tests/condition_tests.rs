use mt_engine_core::book::sparse::SparseBackend;
use mt_engine_core::codec::CommandCodec;
use mt_engine_core::engine::sbe_listener::SbeEncoderListener;
use mt_engine_core::engine::Engine;
use mt_engine_core::outcome::{CommandOutcome, OrderStatus};
use mt_engine_core::sbe::order_flags::OrderFlags;
use mt_engine_core::sbe::time_in_force::TimeInForce;
use mt_engine_core::types::{SequenceNumber, Timestamp, UserId};
use mt_engine_core::engine::condition::ConditionOrderManager;
use mt_engine_core::orders::OrderData;
use mt_engine_core::sbe::order_type::OrderType;
use mt_engine_core::sbe::side::Side;
use mt_engine_core::types::{OrderId, Price, Quantity};

fn stop(id: u64, side: Side, trigger: u64) -> OrderData {
    OrderData {
        order_id: OrderId(id),
        side,
        order_type: OrderType::stop,
        price: Price(trigger),
        trigger_price: Price(trigger),
        remaining_qty: Quantity(1),
        ..OrderData::default()
    }
}

#[test]
fn test_condition_manager_fires_reached_triggers() {
    let mut m = ConditionOrderManager::new();
    assert!(m.is_empty());
    // At last trade price 100: a buy at 120 and a sell at 80 are stops,
    // a buy at 90 and a sell at 130 are take-profits.
    m.register_condition_order(stop(1, Side::buy, 120), Price(100));
    m.register_condition_order(stop(2, Side::sell, 80), Price(100));
    m.register_condition_order(stop(3, Side::buy, 90), Price(100));
    m.register_condition_order(stop(4, Side::sell, 130), Price(100));
    assert_eq!(m.len(), 4);
    assert!(!m.is_empty());

    // The price rises to 125: only the buy stop at 120 fires.
    m.collect_triggered_indices(Price(125));
    assert_eq!(m.triggered_len(), 1);
    let s = m.triggered_at(0);
    let fired = m.take_triggered(s).unwrap();
    assert_eq!(fired.order_id, OrderId(1));
    assert_eq!(m.len(), 3);

    // The price falls to 80: the sell stop at 80 and the buy take-profit at 90 fire.
    m.collect_triggered_indices(Price(80));
    assert_eq!(m.triggered_len(), 2);
    let mut ids: Vec<u64> = (0..2)
        .map(|i| {
            let s = m.triggered_at(i);
            m.take_triggered(s).unwrap().order_id.0
        })
        .collect();
    ids.sort();
    assert_eq!(ids, vec![2, 3]);
    assert_eq!(m.len(), 1);

    let rest = m.orders();
    assert_eq!(rest.len(), 1);
    assert_eq!(rest[0].order_id, OrderId(4));

    m.clear();
    assert!(m.is_empty());
    assert_eq!(m.orders().len(), 0);
}

#[test]
fn test_condition_manager_cancel_unlinks() {
    let mut m = ConditionOrderManager::new();
    m.register_condition_order(stop(1, Side::buy, 120), Price(100));
    m.register_condition_order(stop(2, Side::buy, 120), Price(100));
    let (s, node) = m.remove_pending(1).unwrap();
    let order = m.try_remove_order(s).unwrap();
    assert_eq!(order.order_id, OrderId(1));
    m.unregister_condition_trigger(node, &order, Price(100));
    assert_eq!(m.len(), 1);
    assert!(m.remove_pending(1).is_none());
    // The other order at the same trigger price still fires.
    m.collect_triggered_indices(Price(120));
    assert_eq!(m.triggered_len(), 1);
    let s2 = m.triggered_at(0);
    assert_eq!(m.take_triggered(s2).unwrap().order_id, OrderId(2));
}

#[test]
fn test_cancel_parked_order_after_price_moved_past_it() {
    let mut resp_buf = [0u8; 4096];
    let mut cmd_buf = [0u8; 1024];
    let mut engine = Engine::new(SparseBackend::new(), SbeEncoderListener::new(&mut resp_buf));
    let mut codec = CommandCodec::new(&mut cmd_buf);
    // a stop buy at 150 is parked while the last trade price is 0
    engine.execute_submit(&codec.encode_submit_ext(
        0,
        OrderId(1),
        UserId(1),
        Side::buy,
        OrderType::stop,
        Price(150),
        Quantity(5),
        SequenceNumber(1),
        Timestamp(10),
        TimeInForce::gtc,
        OrderFlags::new(0),
    ));
    // orders with an expiry trade at 200 without activating parked orders
    engine.execute_submit(&codec.encode_submit(
        0,
        OrderId(2),
        UserId(2),
        Side::sell,
        Price(200),
        Quantity(1),
        SequenceNumber(2),
        Timestamp(11),
        TimeInForce::gtc,
    ));
    engine.execute_submit_gtd(&codec.encode_submit_gtd(
        0,
        OrderId(3),
        UserId(3),
        Side::buy,
        Price(200),
        Quantity(1),
        SequenceNumber(3),
        Timestamp(12),
        Timestamp(100000),
    ));
    assert_eq!(engine.get_ltp(), Price(200));
    match engine.execute_cancel(&codec.encode_cancel(0, OrderId(1), SequenceNumber(4), Timestamp(13))) {
        CommandOutcome::Applied(rep) => assert_eq!(rep.status, OrderStatus::Cancelled),
        _ => panic!("Expected the parked order to be cancelled"),
    }
    // a later trade finds nothing to activate
    engine.execute_submit(&codec.encode_submit(
        0,
        OrderId(4),
        UserId(2),
        Side::sell,
        Price(210),
        Quantity(1),
        SequenceNumber(5),
        Timestamp(14),
        TimeInForce::gtc,
    ));
    match engine.execute_submit(&codec.encode_submit(
        0,
        OrderId(5),
        UserId(3),
        Side::buy,
        Price(210),
        Quantity(1),
        SequenceNumber(6),
        Timestamp(15),
        TimeInForce::gtc,
    )) {
        CommandOutcome::Applied(rep) => assert_eq!(rep.trades().len(), 1),
        _ => panic!("Expected one trade"),
    }
}
