use mt_engine_core::engine::events::OrderEventListener;
use mt_engine_core::engine::sbe_listener::SbeEncoderListener;
use mt_engine_core::orders::OrderData;
use mt_engine_core::sbe::execution_report_codec::{self, ExecutionReportDecoder};
use mt_engine_core::sbe::message_header_codec::{self, MessageHeaderDecoder};
use mt_engine_core::sbe::order_status::OrderStatus;
use mt_engine_core::sbe::public_trade_codec;
use mt_engine_core::sbe::side::Side;
use mt_engine_core::types::{OrderId, Price, Quantity, SequenceNumber, Timestamp};

#[test]
fn test_sbe_encoder_listener_on_trade() {
    let mut buffer = vec![0u8; 1024];
    let mut offset = 0;

    let maker = OrderData {
        order_id: OrderId(100),
        side: Side::buy,
        ..Default::default()
    };

    let taker = OrderData {
        order_id: OrderId(101),
        side: Side::sell,
        ..Default::default()
    };

    {
        let mut listener = SbeEncoderListener::new(&mut buffer);

        listener.on_trade(
            &maker,
            &taker,
            Quantity(50),
            Price(12345),
            Timestamp(123456789),
            SequenceNumber(1),
            999,
            &mut offset,
        );
    }

    assert!(offset > 0, "offset should be updated");

    let header = MessageHeaderDecoder::wrap(&buffer[..], 0, message_header_codec::SBE_BLOCK_LENGTH, 0);
    assert_eq!(header.template_id(), execution_report_codec::SBE_TEMPLATE_ID);
    assert_eq!(header.block_length(), execution_report_codec::SBE_BLOCK_LENGTH);
}

#[test]
fn test_listener_trade_writes_two_reports_and_a_trade() {
    let mut buffer = vec![0u8; 1024];
    let mut offset = 0;
    let maker = OrderData {
        order_id: OrderId(7),
        side: Side::sell,
        price: Price(100),
        remaining_qty: Quantity(5),
        filled_qty: Quantity(5),
        ..Default::default()
    };
    let taker = OrderData {
        order_id: OrderId(8),
        side: Side::buy,
        price: Price(101),
        remaining_qty: Quantity(0),
        filled_qty: Quantity(5),
        ..Default::default()
    };
    {
        let mut listener = SbeEncoderListener::new(&mut buffer);
        listener.on_trade(
            &maker,
            &taker,
            Quantity(5),
            Price(100),
            Timestamp(42),
            SequenceNumber(3),
            11,
            &mut offset,
        );
    }
    let report_len = 8 + execution_report_codec::SBE_BLOCK_LENGTH as usize;
    let trade_len = 8 + public_trade_codec::SBE_BLOCK_LENGTH as usize;
    assert_eq!(offset, 2 * report_len + trade_len);

    let maker_report = ExecutionReportDecoder::wrap(&buffer[..], 8, execution_report_codec::SBE_BLOCK_LENGTH, 0);
    assert_eq!(maker_report.order_id(), 7);
    assert_eq!(maker_report.leaves_qty(), 5);
    assert_eq!(maker_report.cum_qty(), 5);
    assert_eq!(maker_report.status(), OrderStatus::traded);

    let taker_report =
        ExecutionReportDecoder::wrap(&buffer[..], report_len + 8, execution_report_codec::SBE_BLOCK_LENGTH, 0);
    assert_eq!(taker_report.order_id(), 8);
    assert_eq!(taker_report.status(), OrderStatus::traded);

    let header = MessageHeaderDecoder::wrap(&buffer[..], 2 * report_len, message_header_codec::SBE_BLOCK_LENGTH, 0);
    assert_eq!(header.template_id(), public_trade_codec::SBE_TEMPLATE_ID);
}

#[test]
fn test_listener_skips_what_does_not_fit() {
    let mut buffer = vec![0u8; 16];
    let mut offset = 0;
    let order = OrderData {
        order_id: OrderId(1),
        ..Default::default()
    };
    {
        let mut listener = SbeEncoderListener::new(&mut buffer);
        listener.on_accepted(&order, Timestamp(1), SequenceNumber(1), &mut offset);
    }
    assert_eq!(offset, 0);
    assert!(buffer.iter().all(|b| *b == 0));
}
