use tradekit::address::Address;
use tradekit::market::{BitgetSubscription, MarketDataError, Symbol};
use tradekit::messaging::multicast::{self, MulticastError, MulticastMessage, PublisherStats};
use tradekit::messaging::unicast::{self, ConnectionState, UnicastError};

#[test]
fn test_symbol_creation() {
    let symbol = Symbol::new("btcusdt");
    assert_eq!(symbol.as_str(), "BTCUSDT");
}

#[test]
fn test_symbol_from_str() {
    let symbol: Symbol = "ethusdt".into();
    assert_eq!(symbol.as_str(), "ETHUSDT");
}

#[test]
fn bitget_ticker_subscription() {
    let sub = BitgetSubscription::ticker("btcusdt");
    assert_eq!(sub.op, "subscribe");
    assert_eq!(sub.args.len(), 1);
    assert_eq!(sub.args[0].inst_type, "SPOT");
    assert_eq!(sub.args[0].channel, "ticker");
    assert_eq!(sub.args[0].inst_id, "BTCUSDT");
}

#[test]
fn multicast_message_type_codes() {
    for code in 1u8..=4 {
        let t = multicast::MessageType::from_u8(code).unwrap();
        assert_eq!(t.to_u8(), code);
    }
    assert_eq!(multicast::MessageType::from_u8(3), Some(multicast::MessageType::Trade));
    assert_eq!(multicast::MessageType::from_u8(0), None);
    assert_eq!(multicast::MessageType::from_u8(5), None);
    let msg = MulticastMessage {
        sequence: 7,
        timestamp_ns: 1,
        msg_type: multicast::MessageType::Heartbeat,
        payload: vec![],
    };
    assert_eq!(msg.msg_type.to_u8(), 4);
    assert_eq!(PublisherStats::default().messages_sent, 0);
    assert_ne!(MulticastError::InvalidMessageType(9), MulticastError::Socket(String::new()));
}

#[test]
fn unicast_message_type_codes() {
    for code in 1u8..=6 {
        let t = unicast::MessageType::from_u8(code).unwrap();
        assert_eq!(t.to_u8(), code);
    }
    assert_eq!(unicast::MessageType::from_u8(6), Some(unicast::MessageType::Ack));
    assert_eq!(unicast::MessageType::from_u8(7), None);
    assert_ne!(ConnectionState::Connected, ConnectionState::Closed);
    assert_eq!(UnicastError::Timeout, UnicastError::Timeout);
    assert_ne!(MarketDataError::ReconnectionFailed(3), MarketDataError::ReconnectionFailed(4));
}

#[test]
fn address_renders_its_number() {
    assert_eq!(Address::new(42).to_string(), "42");
    assert_eq!(Address::new(0).to_string(), "0");
    assert_eq!(Address::new(-17).to_string(), "-17");
    assert_eq!(Address::new(i32::MIN).to_string(), "-2147483648");
    assert_eq!(Address::new(i32::MAX).value, 2147483647);
}
