use bid_ask_codec::{
    check_float_token, parse_fix_date, parse_number, parse_tcp_feed_date, to_fix_date_string,
    write_date, BidAskDataTcpModel, BidAskTcpMessage, BidAskTcpSerializer, DateParseError,
    SerializeError, Timestamp,
};

fn ts(year: u32, month: u32, day: u32, hour: u32, minute: u32, second: u32, micros: u32) -> Timestamp {
    Timestamp { year, month, day, hour, minute, second, microsecond: micros }
}

#[test]
fn test_parse_date() {
    let date = "20240425-17:28:02.629";
    let date: Timestamp = parse_fix_date(date).unwrap();
    assert_eq!(&date.to_rfc3339()[..23], "2024-04-25T17:28:02.629");
}

#[test]
fn test_parse_tcp_date() {
    let date = "20240425172802.629";
    let date: Timestamp = parse_tcp_feed_date(date.as_bytes()).unwrap();
    assert_eq!(&date.to_rfc3339()[..23], "2024-04-25T17:28:02.629");
}

#[test]
fn test_parse_tcp_date_no_micros() {
    let date = "20240425172802";
    let date: Timestamp = parse_tcp_feed_date(date.as_bytes()).unwrap();
    assert_eq!(&date.to_rfc3339()[..20], "2024-04-25T17:28:02+");
}

#[test]
fn test_deserialize() {
    let message = b"A EURUSD B1.55555 A2.55555 50000000 20230213142225.555";
    let result = BidAskDataTcpModel::deserialize(message).unwrap();
    assert_eq!(result.instrument_id, "EURUSD");
    assert_eq!(result.bid.parse::<f64>().unwrap(), 1.55555);
    assert_eq!(result.ask.parse::<f64>().unwrap(), 2.55555);
    assert_eq!(result.volume.parse::<f64>().unwrap(), 50000000.0);
}

#[test]
fn test_serialize() {
    let message = "A EURUSD B1.55555 A2.55555 50000000 20230213142225.555";

    let result = BidAskDataTcpModel {
        instrument_id: "EURUSD".to_string(),
        bid: "1.55555".to_string(),
        ask: "2.55555".to_string(),
        volume: "50000000".to_string(),
        timestamp: ts(2023, 2, 13, 14, 22, 25, 555_000),
    };

    let mut serialized: Vec<u8> = Vec::new();

    result.serialize(&mut serialized);

    assert_eq!(String::from_utf8(serialized).unwrap(), message);
}

#[test]
fn test_write_date() {
    let dt = ts(2015, 5, 12, 12, 13, 14, 100_000);

    let mut buffer = Vec::new();

    write_date(&mut buffer, &dt);

    println!("{:?}", std::str::from_utf8(buffer.as_slice()).unwrap());
}

#[test]
fn test_message() {
    let src = "A BTCUSD B63687.33 A63687.34 0 20240507153442.320";

    let itm = BidAskTcpMessage::parse(src.as_bytes()).unwrap();

    println!("{:?}", itm);
}

#[test]
fn test_round_trip() {
    let record = BidAskDataTcpModel {
        instrument_id: "BTCUSD".to_string(),
        bid: "63687.33".to_string(),
        ask: "63687.34".to_string(),
        volume: "0".to_string(),
        timestamp: ts(2024, 5, 7, 15, 34, 42, 320_000),
    };
    let mut wire: Vec<u8> = Vec::new();
    record.serialize(&mut wire);
    let back = BidAskDataTcpModel::deserialize(&wire).unwrap();
    assert_eq!(back.instrument_id, record.instrument_id);
    assert_eq!(back.bid, record.bid);
    assert_eq!(back.ask, record.ask);
    assert_eq!(back.volume, record.volume);
    assert_eq!(back.timestamp, record.timestamp);
}

#[test]
fn test_keep_alive_classification() {
    let serializer = BidAskTcpSerializer::new();
    let ping = serializer.deserialize(b"PING\r\n").unwrap();
    assert!(ping.is_ping());
    let pong = serializer.deserialize(b"PONG\r\n").unwrap();
    assert!(pong.is_pong());
    let mut out: Vec<u8> = Vec::new();
    serializer.serialize(&mut out, &BidAskTcpMessage::Ping);
    assert_eq!(out, b"PING\r\n");
    assert!(serializer.get_ping().is_ping());
}

#[test]
fn test_malformed_tick_resilience() {
    let serializer = BidAskTcpSerializer::new();
    let frame = b"A EURUSD Bnope A2.5 1 20230213142225\r\n";
    let msg = serializer.deserialize(frame).unwrap();
    assert!(!msg.is_bid_ask());
    match msg {
        BidAskTcpMessage::Skip(text) => {
            assert_eq!(text, "A EURUSD Bnope A2.5 1 20230213142225");
        }
        other => panic!("expected pass-through, got {:?}", other),
    }
}

#[test]
fn test_wire_date_boundary() {
    let no_millis = parse_tcp_feed_date(b"20240425172802").unwrap();
    assert_eq!(no_millis, ts(2024, 4, 25, 17, 28, 2, 0));
    let with_millis = parse_tcp_feed_date(b"20240425172802.629").unwrap();
    assert_eq!(with_millis, ts(2024, 4, 25, 17, 28, 2, 629_000));
}

#[test]
fn test_end_to_end_example() {
    let input: &[u8] = b"A EURUSD B1.55555 A2.55555 50000000 20230213142225.555\r\n";
    let serializer = BidAskTcpSerializer::new();
    let msg = serializer.deserialize(input).unwrap();
    assert!(msg.is_bid_ask());
    match &msg {
        BidAskTcpMessage::BidAsk(tick) => {
            assert_eq!(tick.instrument_id, "EURUSD");
            assert_eq!(tick.bid.parse::<f64>().unwrap(), 1.55555);
            assert_eq!(tick.ask.parse::<f64>().unwrap(), 2.55555);
            assert_eq!(tick.volume.parse::<f64>().unwrap(), 50000000.0);
            assert_eq!(tick.timestamp, ts(2023, 2, 13, 14, 22, 25, 555_000));
        }
        other => panic!("expected a tick, got {:?}", other),
    }
    let mut out: Vec<u8> = Vec::new();
    serializer.serialize(&mut out, &msg);
    assert_eq!(out, input);
}

#[test]
fn test_report_format() {
    let instant = ts(2024, 4, 25, 17, 28, 2, 629_000);
    assert_eq!(to_fix_date_string(instant), "20240425-17:28:02.629");
    let back = parse_fix_date("20240425-17:28:02.629").unwrap();
    assert_eq!(back, instant);
}

#[test]
fn test_rfc3339_forms() {
    assert_eq!(ts(2024, 4, 25, 17, 28, 2, 0).to_rfc3339(), "2024-04-25T17:28:02+00:00");
    assert_eq!(ts(2024, 4, 25, 17, 28, 2, 500_000).to_rfc3339(), "2024-04-25T17:28:02.500+00:00");
    assert_eq!(
        ts(2024, 4, 25, 17, 28, 2, 123_456).to_rfc3339(),
        "2024-04-25T17:28:02.123456+00:00"
    );
}

#[test]
fn test_field_errors() {
    assert_eq!(
        BidAskDataTcpModel::deserialize(b"A").unwrap_err(),
        SerializeError::InvalidInstrumentId
    );
    assert_eq!(
        BidAskDataTcpModel::deserialize(b"A  B1 A2 3 20230213142225").unwrap_err(),
        SerializeError::InvalidInstrumentId
    );
    assert_eq!(
        BidAskDataTcpModel::deserialize(b"A EURUSD Bx A2 3 20230213142225").unwrap_err(),
        SerializeError::InvalidBid
    );
    assert_eq!(
        BidAskDataTcpModel::deserialize(b"A EURUSD B1 Ax 3 20230213142225").unwrap_err(),
        SerializeError::InvalidAsk
    );
    assert_eq!(
        BidAskDataTcpModel::deserialize(b"A EURUSD B1 A2 x 20230213142225").unwrap_err(),
        SerializeError::InvalidVolume
    );
    assert_eq!(
        BidAskDataTcpModel::deserialize(b"A EURUSD B1 A2 3 2023").unwrap_err(),
        SerializeError::InvalidDate
    );
}

#[test]
fn test_frame_errors() {
    let serializer = BidAskTcpSerializer::new();
    assert_eq!(
        serializer.deserialize(b"PING").unwrap_err(),
        SerializeError::MissingEndMarker
    );
    assert_eq!(
        serializer.deserialize(&[0xFFu8, 0xFE, 13, 10]).unwrap_err(),
        SerializeError::InvalidText
    );
}

#[test]
fn test_date_errors() {
    assert_eq!(parse_tcp_feed_date(b"2024").unwrap_err(), DateParseError::TooShort);
    assert_eq!(parse_tcp_feed_date(b"2024042517280X").unwrap_err(), DateParseError::NotANumber);
    assert_eq!(parse_tcp_feed_date(b"20240425172802.6").unwrap_err(), DateParseError::TooShort);
    assert_eq!(parse_fix_date("20240425-17:28:02").unwrap_err(), DateParseError::TooShort);
    assert_eq!(parse_fix_date("2024042X-17:28:02.629").unwrap_err(), DateParseError::NotANumber);
}

#[test]
fn test_parse_number_values() {
    assert_eq!(parse_number("123"), Some(123));
    assert_eq!(parse_number("0042"), Some(42));
    assert_eq!(parse_number(""), None);
    assert_eq!(parse_number("12a"), None);
    assert_eq!(parse_number("-5"), None);
    assert_eq!(parse_number("18446744073709551615"), Some(u64::MAX));
    assert_eq!(parse_number("18446744073709551616"), None);
}

#[test]
fn test_float_tokens() {
    assert!(check_float_token(b"1.55555"));
    assert!(check_float_token(b"50000000"));
    assert!(check_float_token(b"-0.5"));
    assert!(check_float_token(b"+12."));
    assert!(check_float_token(b".5"));
    assert!(check_float_token(b"1e5"));
    assert!(check_float_token(b"1.5E-3"));
    assert!(check_float_token(b"inf"));
    assert!(check_float_token(b"-Infinity"));
    assert!(check_float_token(b"NaN"));
    assert!(!check_float_token(b""));
    assert!(!check_float_token(b"."));
    assert!(!check_float_token(b"1.2.3"));
    assert!(!check_float_token(b"B1"));
    assert!(!check_float_token(b"1e"));
    assert!(!check_float_token(b"e5"));
    assert!(!check_float_token(b"--1"));
}

#[test]
fn test_utf8_pass_through() {
    let serializer = BidAskTcpSerializer::new();
    let msg = serializer.deserialize("caf\u{e9}\r\n".as_bytes()).unwrap();
    match msg {
        BidAskTcpMessage::Skip(text) => assert_eq!(text, "caf\u{e9}"),
        other => panic!("expected pass-through, got {:?}", other),
    }
    let msg = BidAskTcpMessage::parse("A\u{e9}".as_bytes()).unwrap();
    match msg {
        BidAskTcpMessage::Skip(text) => assert_eq!(text, "A\u{e9}"),
        other => panic!("expected pass-through, got {:?}", other),
    }
    let mut out: Vec<u8> = Vec::new();
    serializer.serialize(&mut out, &BidAskTcpMessage::Skip("caf\u{e9}".to_string()));
    assert_eq!(out, "caf\u{e9}\r\n".as_bytes());
}

#[test]
fn test_utf8_instrument_round_trip() {
    let record = BidAskDataTcpModel {
        instrument_id: "\u{c9}URUSD".to_string(),
        bid: "1.5".to_string(),
        ask: "2.5".to_string(),
        volume: "10".to_string(),
        timestamp: ts(2024, 5, 7, 15, 34, 42, 0),
    };
    let mut wire: Vec<u8> = Vec::new();
    record.serialize(&mut wire);
    let back = BidAskDataTcpModel::deserialize(&wire).unwrap();
    assert_eq!(back.instrument_id, record.instrument_id);
    assert_eq!(back.bid, record.bid);
    assert_eq!(back.ask, record.ask);
    assert_eq!(back.volume, record.volume);
    assert_eq!(back.timestamp, record.timestamp);
}
