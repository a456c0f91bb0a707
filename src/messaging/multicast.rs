use crate::bytes::{append_bytes, range_of};
use vstd::bytes::{
    spec_u32_from_le_bytes, spec_u32_to_le_bytes, spec_u64_from_le_bytes, spec_u64_to_le_bytes,
    u32_from_le_bytes, u32_to_le_bytes, u64_from_le_bytes, u64_to_le_bytes,
};
use vstd::prelude::*;

verus! {

/// Kind of a multicast message, with its wire code.
#[derive(Debug, Clone, Copy, PartialEq, Eq, Structural)]
pub enum MessageType {
    Ticker,
    OrderBook,
    Trade,
    Heartbeat,
}

/// The wire code of `t`.
pub open spec fn code_of(t: MessageType) -> u8 {
    match t {
        MessageType::Ticker => 1,
        MessageType::OrderBook => 2,
        MessageType::Trade => 3,
        MessageType::Heartbeat => 4,
    }
}

impl MessageType {
    /// The message type with wire code `value`, if there is one.
    pub fn from_u8(value: u8) -> (r: Option<Self>)
        ensures
            match r {
                Some(t) => code_of(t) == value,
                None => !(1 <= value <= 4),
            },
    {
        match value {
            1 => Some(MessageType::Ticker),
            2 => Some(MessageType::OrderBook),
            3 => Some(MessageType::Trade),
            4 => Some(MessageType::Heartbeat),
            _ => None,
        }
    }

    /// The wire code of this type.
    pub fn to_u8(self) -> (r: u8)
        ensures
            r == code_of(self),
    {
        match self {
            MessageType::Ticker => 1,
            MessageType::OrderBook => 2,
            MessageType::Trade => 3,
            MessageType::Heartbeat => 4,
        }
    }
}

/// A multicast message: sequence number for loss detection, send time in
/// nanoseconds, type and payload.
#[derive(Debug, Clone)]
pub struct MulticastMessage {
    pub sequence: u64,
    pub timestamp_ns: u64,
    pub msg_type: MessageType,
    pub payload: Vec<u8>,
}

/// Counters of a publisher.
#[derive(Debug, Clone, Default)]
pub struct PublisherStats {
    pub messages_sent: u64,
    pub bytes_sent: u64,
    pub errors: u64,
}

/// Counters of a subscriber.
#[derive(Debug, Clone, Default)]
pub struct SubscriberStats {
    pub messages_received: u64,
    pub bytes_received: u64,
    pub packets_lost: u64,
    pub parse_errors: u64,
}

/// Errors of the multicast transport; an I/O error is held as its message.
#[derive(Debug, Clone, PartialEq, Eq)]
pub enum MulticastError {
    Io(String),
    Serialization(String),
    Deserialization(String),
    InvalidMessageType(u8),
    Socket(String),
    Config(String),
}

/// Size of the fixed header of a multicast frame.
pub const HEADER_LEN: usize = 21;

/// The wire form of `m`: sequence (8 bytes, little-endian), timestamp (8,
/// little-endian), type code (1), payload length (4, little-endian), payload.
pub open spec fn frame_of(m: MulticastMessage) -> Seq<u8> {
    spec_u64_to_le_bytes(m.sequence) + spec_u64_to_le_bytes(m.timestamp_ns) + seq![code_of(m.msg_type)]
        + spec_u32_to_le_bytes(m.payload@.len() as u32) + m.payload@
}

/// The payload length a frame's header announces.
pub open spec fn announced_len(data: Seq<u8>) -> u32 {
    spec_u32_from_le_bytes(data.subrange(17, 21))
}

/// Encodes `m` as a frame.
pub fn serialize_message(m: &MulticastMessage) -> (r: Vec<u8>)
    requires
        m.payload@.len() <= u32::MAX,
    ensures
        r@ == frame_of(*m),
{
    let mut buf: Vec<u8> = Vec::new();
    let seq_bytes = u64_to_le_bytes(m.sequence);
    append_bytes(&mut buf, seq_bytes.as_slice());
    let ts_bytes = u64_to_le_bytes(m.timestamp_ns);
    append_bytes(&mut buf, ts_bytes.as_slice());
    buf.push(m.msg_type.to_u8());
    let len_bytes = u32_to_le_bytes(m.payload.len() as u32);
    append_bytes(&mut buf, len_bytes.as_slice());
    append_bytes(&mut buf, m.payload.as_slice());
    buf
}

/// Decodes a frame. Too short for the header, or for the payload it
/// announces: `Deserialization`; an unknown type code:
/// `InvalidMessageType` with that code. Bytes after the payload are ignored.
pub fn deserialize_message(data: &[u8]) -> (r: Result<MulticastMessage, MulticastError>)
    ensures
        data@.len() < 21 ==> r matches Err(MulticastError::Deserialization(_)),
        data@.len() >= 21 && !(1 <= data@[16] <= 4) ==> r == Err::<
            MulticastMessage,
            MulticastError,
        >(MulticastError::InvalidMessageType(data@[16])),
        data@.len() >= 21 && 1 <= data@[16] <= 4 && data@.len() < 21 + announced_len(data@) ==> r matches Err(
            MulticastError::Deserialization(_),
        ),
        r matches Ok(m) ==> {
            &&& data@.len() >= 21 + announced_len(data@)
            &&& m.sequence == spec_u64_from_le_bytes(data@.subrange(0, 8))
            &&& m.timestamp_ns == spec_u64_from_le_bytes(data@.subrange(8, 16))
            &&& code_of(m.msg_type) == data@[16]
            &&& m.payload@ == data@.subrange(21, 21 + announced_len(data@))
        },
        data@.len() >= 21 && 1 <= data@[16] <= 4 && data@.len() >= 21 + announced_len(data@) ==> r is Ok,
{
    if data.len() < HEADER_LEN {
        return Err(MulticastError::Deserialization("Message too short".to_owned()));
    }
    let sequence = u64_from_le_bytes(range_of(data, 0, 8).as_slice());
    let timestamp_ns = u64_from_le_bytes(range_of(data, 8, 16).as_slice());
    let code = data[16];
    let msg_type = match MessageType::from_u8(code) {
        Some(t) => t,
        None => {
            return Err(MulticastError::InvalidMessageType(code));
        },
    };
    let payload_len = u32_from_le_bytes(range_of(data, 17, 21).as_slice()) as usize;
    if data.len() - HEADER_LEN < payload_len {
        return Err(MulticastError::Deserialization("Incomplete payload".to_owned()));
    }
    let payload = range_of(data, 21, 21 + payload_len);
    Ok(MulticastMessage { sequence, timestamp_ns, msg_type, payload })
}

/// Number of packets missed between the last sequence number seen and
/// `sequence`; none when nothing was seen yet (zero) or `sequence` follows on.
pub fn packets_lost(last_sequence: u64, sequence: u64) -> (r: u64)
    ensures
        r == (if last_sequence > 0 && sequence > last_sequence + 1 {
            sequence - last_sequence - 1
        } else {
            0
        }),
{
    if last_sequence > 0 && sequence > last_sequence && sequence - last_sequence > 1 {
        sequence - last_sequence - 1
    } else {
        0
    }
}

/// Decoding reads back what encoding wrote: the header of `frame_of(m)`
/// holds `m`'s fields and announces exactly its payload.
pub proof fn lemma_frame_round_trip(m: MulticastMessage)
    requires
        m.payload@.len() <= u32::MAX,
    ensures
        ({
            let f = frame_of(m);
            &&& f.len() == 21 + m.payload@.len()
            &&& announced_len(f) == m.payload@.len()
            &&& spec_u64_from_le_bytes(f.subrange(0, 8)) == m.sequence
            &&& spec_u64_from_le_bytes(f.subrange(8, 16)) == m.timestamp_ns
            &&& f[16] == code_of(m.msg_type)
            &&& f.subrange(21, f.len() as int) == m.payload@
        }),
{
    vstd::bytes::lemma_auto_spec_u64_to_from_le_bytes();
    vstd::bytes::lemma_auto_spec_u32_to_from_le_bytes();
    let f = frame_of(m);
    let a = spec_u64_to_le_bytes(m.sequence);
    let b = spec_u64_to_le_bytes(m.timestamp_ns);
    let c = spec_u32_to_le_bytes(m.payload@.len() as u32);
    assert(f.subrange(0, 8) =~= a);
    assert(f.subrange(8, 16) =~= b);
    assert(f.subrange(17, 21) =~= c);
    assert(f.subrange(21, f.len() as int) =~= m.payload@);
}

} // verus!
