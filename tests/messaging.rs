use tradekit::messaging::multicast::{self, MulticastError};
use tradekit::messaging::unicast::{self, UnicastError, UnicastMessage};

#[test]
fn test_serialize_deserialize() {
    let message = UnicastMessage {
        message_id: 12345,
        timestamp_ns: 67890,
        msg_type: unicast::MessageType::OrderCommand,
        payload: vec![1, 2, 3, 4, 5],
    };

    let serialized = unicast::serialize_message(&message);
    let deserialized = unicast::deserialize_message(&serialized).unwrap();

    assert_eq!(deserialized.message_id, message.message_id);
    assert_eq!(deserialized.timestamp_ns, message.timestamp_ns);
    assert_eq!(deserialized.msg_type, message.msg_type);
    assert_eq!(deserialized.payload, message.payload);
}

#[test]
fn unicast_frame_layout_is_big_endian() {
    let message = UnicastMessage {
        message_id: 0x0102030405060708,
        timestamp_ns: 9,
        msg_type: unicast::MessageType::Ack,
        payload: vec![0xaa],
    };
    let bytes = unicast::serialize_message(&message);
    assert_eq!(&bytes[0..4], &[0, 0, 0, 22]);
    assert_eq!(&bytes[4..12], &[1, 2, 3, 4, 5, 6, 7, 8]);
    assert_eq!(&bytes[12..20], &[0, 0, 0, 0, 0, 0, 0, 9]);
    assert_eq!(bytes[20], 6);
    assert_eq!(bytes[21], 0xaa);
}

#[test]
fn unicast_decode_errors() {
    assert!(matches!(unicast::deserialize_message(&[0u8; 20]), Err(UnicastError::Deserialization(_))));
    let mut frame = vec![0u8; 21];
    frame[20] = 9;
    assert_eq!(unicast::deserialize_message(&frame).unwrap_err(), UnicastError::InvalidMessageType(9));
}

#[test]
fn multicast_round_trip_and_layout() {
    let message = multicast::MulticastMessage {
        sequence: 0x0102,
        timestamp_ns: 7,
        msg_type: multicast::MessageType::Trade,
        payload: vec![5, 6, 7],
    };
    let bytes = multicast::serialize_message(&message);
    assert_eq!(bytes.len(), 24);
    assert_eq!(&bytes[0..8], &[2, 1, 0, 0, 0, 0, 0, 0]);
    assert_eq!(bytes[16], 3);
    assert_eq!(&bytes[17..21], &[3, 0, 0, 0]);
    let back = multicast::deserialize_message(&bytes).unwrap();
    assert_eq!(back.sequence, 0x0102);
    assert_eq!(back.timestamp_ns, 7);
    assert_eq!(back.msg_type, multicast::MessageType::Trade);
    assert_eq!(back.payload, vec![5, 6, 7]);
}

#[test]
fn multicast_decode_errors() {
    assert!(matches!(multicast::deserialize_message(&[0u8; 20]), Err(MulticastError::Deserialization(_))));
    let mut frame = vec![0u8; 21];
    frame[16] = 0;
    assert_eq!(multicast::deserialize_message(&frame).unwrap_err(), MulticastError::InvalidMessageType(0));
    frame[16] = 1;
    frame[17] = 2; // announces two payload bytes that are missing
    assert!(matches!(multicast::deserialize_message(&frame), Err(MulticastError::Deserialization(_))));
}

#[test]
fn packet_loss_counts_gaps() {
    assert_eq!(multicast::packets_lost(0, 10), 0);
    assert_eq!(multicast::packets_lost(5, 6), 0);
    assert_eq!(multicast::packets_lost(5, 9), 3);
    assert_eq!(multicast::packets_lost(9, 5), 0);
    assert_eq!(multicast::packets_lost(u64::MAX, u64::MAX), 0);
}
