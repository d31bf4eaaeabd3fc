use mt_engine_core::sbe::control_op::ControlOp;
use mt_engine_core::sbe::order_flags::OrderFlags;
use mt_engine_core::sbe::order_status::OrderStatus;
use mt_engine_core::sbe::order_type::OrderType;
use mt_engine_core::sbe::side::Side;
use mt_engine_core::sbe::time_in_force::TimeInForce;

#[test]
fn test_enum_names_round_trip() {
    for s in [Side::buy, Side::sell, Side::NullVal] {
        assert_eq!(s.as_str().parse::<Side>(), Ok(s));
        assert_eq!(Side::from_u8(s.to_u8()), s);
    }
    for t in [OrderType::market, OrderType::limit, OrderType::stop, OrderType::stop_limit, OrderType::NullVal] {
        assert_eq!(t.as_str().parse::<OrderType>(), Ok(t));
        assert_eq!(OrderType::from_u8(t.to_u8()), t);
    }
    for t in [
        TimeInForce::ioc,
        TimeInForce::fok,
        TimeInForce::gtc,
        TimeInForce::gtd,
        TimeInForce::gth,
        TimeInForce::NullVal,
    ] {
        assert_eq!(t.as_str().parse::<TimeInForce>(), Ok(t));
        assert_eq!(TimeInForce::from_u8(t.to_u8()), t);
    }
    for o in [
        OrderStatus::pending,
        OrderStatus::order_new,
        OrderStatus::partially_filled,
        OrderStatus::filled,
        OrderStatus::cancelled,
        OrderStatus::rejected,
        OrderStatus::expired,
        OrderStatus::traded,
        OrderStatus::NullVal,
    ] {
        assert_eq!(o.as_str().parse::<OrderStatus>(), Ok(o));
        assert_eq!(OrderStatus::from_u8(o.to_u8()), o);
    }
    for c in [ControlOp::shutdown, ControlOp::NullVal] {
        assert_eq!(c.as_str().parse::<ControlOp>(), Ok(c));
        assert_eq!(ControlOp::from_u8(c.to_u8()), c);
    }
}

#[test]
fn test_unknown_names_and_bytes() {
    assert_eq!("bid".parse::<Side>(), Ok(Side::NullVal));
    assert_eq!("".parse::<OrderType>(), Ok(OrderType::NullVal));
    assert_eq!("GTC".parse::<TimeInForce>(), Ok(TimeInForce::NullVal));
    assert_eq!(Side::from_u8(7), Side::NullVal);
    assert_eq!(Side::buy.to_u8(), 0);
    assert_eq!(Side::sell.to_u8(), 1);
    assert_eq!(Side::NullVal.to_u8(), 0xff);
    assert_eq!(OrderType::limit.to_u8(), 1);
    assert_eq!(TimeInForce::gtc.to_u8(), 2);
}

#[test]
fn test_order_flags_set_and_get() {
    let mut flags = OrderFlags::new(0);
    flags.set_iceberg(true).set_post_only(true);
    assert!(flags.get_iceberg());
    assert!(flags.get_post_only());
    assert!(!flags.get_hidden());
    assert_eq!(flags.0, 0b101);
    flags.set_post_only(false);
    assert!(!flags.get_post_only());
    assert!(flags.get_iceberg());
    flags.set_disable_self_trade(true);
    assert!(flags.get_disable_self_trade());
    flags.clear();
    assert_eq!(flags.0, 0);
}

#[test]
fn test_gtd_encoder_fields_read_back() {
    use_gtd_encoder();
}

fn use_gtd_encoder() {
    let mut buf = [0u8; 96];
    {
        let mut enc = mt_engine_core::sbe::order_submit_gtd_codec::OrderSubmitGtdEncoder::wrap(&mut buf, 8);
        enc.header(0);
        enc.order_id(41);
        enc.user_id(7);
        enc.side(mt_engine_core::sbe::side::Side::sell);
        enc.order_type(mt_engine_core::sbe::order_type::OrderType::limit);
        enc.price(1234);
        enc.quantity(55);
        enc.time_in_force(mt_engine_core::sbe::time_in_force::TimeInForce::gtd);
        enc.flags(mt_engine_core::sbe::order_flags::OrderFlags::new(1));
        enc.expiry_time(9000);
        enc.timestamp(8000);
        enc.sequence_number(3);
        assert_eq!(enc.encoded_length(), 72);
    }
    let dec = mt_engine_core::sbe::order_submit_gtd_codec::OrderSubmitGtdDecoder::wrap(&buf, 8, 72, 0);
    assert_eq!(dec.order_id(), 41);
    assert_eq!(dec.user_id(), 7);
    assert_eq!(dec.side(), mt_engine_core::sbe::side::Side::sell);
    assert_eq!(dec.order_type(), mt_engine_core::sbe::order_type::OrderType::limit);
    assert_eq!(dec.price(), 1234);
    assert_eq!(dec.quantity(), 55);
    assert_eq!(dec.time_in_force(), mt_engine_core::sbe::time_in_force::TimeInForce::gtd);
    assert_eq!(dec.expiry_time(), 9000);
    assert_eq!(dec.timestamp(), 8000);
    assert_eq!(dec.sequence_number(), 3);
    assert_eq!(u16::from_le_bytes([buf[0], buf[1]]), 72);
    assert_eq!(u16::from_le_bytes([buf[2], buf[3]]), 4);
}
