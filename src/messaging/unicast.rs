use crate::bytes::{append_bytes, range_of};
use vstd::bytes::{spec_u64_from_le_bytes, spec_u64_to_le_bytes, u64_from_le_bytes, u64_to_le_bytes};
use vstd::prelude::*;

verus! {

/// Kind of a unicast message, with its wire code.
#[derive(Debug, Clone, Copy, PartialEq, Eq, Structural)]
pub enum MessageType {
    OrderCommand,
    QueryRequest,
    QueryResponse,
    ConfigSync,
    Heartbeat,
    Ack,
}

/// The wire code of `t`.
pub open spec fn code_of(t: MessageType) -> u8 {
    match t {
        MessageType::OrderCommand => 1,
        MessageType::QueryRequest => 2,
        MessageType::QueryResponse => 3,
        MessageType::ConfigSync => 4,
        MessageType::Heartbeat => 5,
        MessageType::Ack => 6,
    }
}

impl MessageType {
    /// The message type with wire code `value`, if there is one.
    pub fn from_u8(value: u8) -> (r: Option<Self>)
        ensures
            match r {
                Some(t) => code_of(t) == value,
                None => !(1 <= value <= 6),
            },
    {
        match value {
            1 => Some(MessageType::OrderCommand),
            2 => Some(MessageType::QueryRequest),
            3 => Some(MessageType::QueryResponse),
            4 => Some(MessageType::ConfigSync),
            5 => Some(MessageType::Heartbeat),
            6 => Some(MessageType::Ack),
            _ => None,
        }
    }

    /// The wire code of this type.
    pub fn to_u8(self) -> (r: u8)
        ensures
            r == code_of(self),
    {
        match self {
            MessageType::OrderCommand => 1,
            MessageType::QueryRequest => 2,
            MessageType::QueryResponse => 3,
            MessageType::ConfigSync => 4,
            MessageType::Heartbeat => 5,
            MessageType::Ack => 6,
        }
    }
}

/// A unicast message: id for tracking and acknowledgement, send time in
/// nanoseconds, type and payload.
#[derive(Debug, Clone)]
pub struct UnicastMessage {
    pub message_id: u64,
    pub timestamp_ns: u64,
    pub msg_type: MessageType,
    pub payload: Vec<u8>,
}

/// Counters of a client.
#[derive(Debug, Clone, Default)]
pub struct ClientStats {
    pub messages_sent: u64,
    pub messages_received: u64,
    pub bytes_sent: u64,
    pub bytes_received: u64,
    pub connect_count: u64,
    pub reconnect_count: u64,
    pub send_errors: u64,
    pub receive_errors: u64,
}

/// Counters of a server.
#[derive(Debug, Clone, Default)]
pub struct ServerStats {
    pub active_connections: u64,
    pub total_connections: u64,
    pub messages_sent: u64,
    pub messages_received: u64,
    pub bytes_sent: u64,
    pub bytes_received: u64,
}

/// Errors of the unicast transport; an I/O error is held as its message.
#[derive(Debug, Clone, PartialEq, Eq)]
pub enum UnicastError {
    Io(String),
    Connection(String),
    Disconnected,
    Timeout,
    Serialization(String),
    Deserialization(String),
    InvalidMessageType(u8),
    Config(String),
    MaxReconnectAttemptsReached,
}

/// State of a connection.
#[derive(Debug, Clone, Copy, PartialEq, Eq, Structural)]
pub enum ConnectionState {
    Disconnected,
    Connecting,
    Connected,
    Reconnecting,
    Closed,
}

/// The eight bytes of `x`, most significant first.
pub open spec fn be_u64(x: u64) -> Seq<u8> {
    spec_u64_to_le_bytes(x).reverse()
}

/// The value of eight bytes, most significant first.
pub open spec fn from_be_u64(s: Seq<u8>) -> u64 {
    spec_u64_from_le_bytes(s.reverse())
}

/// The four bytes of `x`, most significant first.
pub open spec fn be_u32(x: u32) -> Seq<u8> {
    seq![(x / 0x1000000) as u8, ((x / 0x10000) % 256) as u8, ((x / 0x100) % 256) as u8, (x % 256) as u8]
}

/// The wire form of `m`: total frame length (4 bytes, big-endian), message
/// id (8, big-endian), timestamp (8, big-endian), type code (1), payload.
pub open spec fn frame_of(m: UnicastMessage) -> Seq<u8> {
    be_u32((21 + m.payload@.len()) as u32) + be_u64(m.message_id) + be_u64(m.timestamp_ns) + seq![
        code_of(m.msg_type),
    ] + m.payload@
}

/// Appends the bytes of `x`, most significant first.
fn push_be_u64(buf: &mut Vec<u8>, x: u64)
    ensures
        final(buf)@ == old(buf)@ + be_u64(x),
{
    let le = u64_to_le_bytes(x);
    let mut i: usize = 8;
    while i > 0
        invariant
            i <= 8,
            le@ == spec_u64_to_le_bytes(x),
            le@.len() == 8,
            buf@ =~= old(buf)@ + le@.reverse().subrange(0, 8 - i as int),
        decreases i,
    {
        buf.push(le[i - 1]);
        i = i - 1;
    }
    assert(le@.reverse().subrange(0, 8) =~= le@.reverse());
}

/// The value of the eight bytes of `s` from `start`, most significant first.
fn read_be_u64(s: &[u8], start: usize) -> (r: u64)
    requires
        start + 8 <= s@.len(),
    ensures
        r == from_be_u64(s@.subrange(start as int, start + 8)),
{
    let n = s.len();
    let mut le: Vec<u8> = Vec::new();
    let mut i: usize = 8;
    while i > 0
        invariant
            i <= 8,
            n == s@.len(),
            start + 8 <= s@.len(),
            le@ =~= s@.subrange(start as int, start + 8).reverse().subrange(0, 8 - i as int),
        decreases i,
    {
        le.push(s[start + i - 1]);
        i = i - 1;
    }
    assert(le@ =~= s@.subrange(start as int, start + 8).reverse());
    u64_from_le_bytes(le.as_slice())
}

/// Encodes `m` as a frame.
pub fn serialize_message(m: &UnicastMessage) -> (r: Vec<u8>)
    requires
        21 + m.payload@.len() <= u32::MAX,
    ensures
        r@ == frame_of(*m),
{
    let mut buf: Vec<u8> = Vec::new();
    let total = (21 + m.payload.len()) as u32;
    buf.push((total / 0x1000000) as u8);
    buf.push(((total / 0x10000) % 256) as u8);
    buf.push(((total / 0x100) % 256) as u8);
    buf.push((total % 256) as u8);
    push_be_u64(&mut buf, m.message_id);
    push_be_u64(&mut buf, m.timestamp_ns);
    buf.push(m.msg_type.to_u8());
    append_bytes(&mut buf, m.payload.as_slice());
    assert(buf@ =~= frame_of(*m));
    buf
}

/// Decodes a frame; the length prefix is not consulted and the payload is
/// everything after the header. Fewer than 21 bytes: `Deserialization`; an
/// unknown type code: `InvalidMessageType` with that code.
pub fn deserialize_message(data: &[u8]) -> (r: Result<UnicastMessage, UnicastError>)
    ensures
        data@.len() < 21 ==> r matches Err(UnicastError::Deserialization(_)),
        data@.len() >= 21 && !(1 <= data@[20] <= 6) ==> r == Err::<UnicastMessage, UnicastError>(
            UnicastError::InvalidMessageType(data@[20]),
        ),
        data@.len() >= 21 && 1 <= data@[20] <= 6 ==> r is Ok,
        r matches Ok(m) ==> {
            &&& data@.len() >= 21
            &&& m.message_id == from_be_u64(data@.subrange(4, 12))
            &&& m.timestamp_ns == from_be_u64(data@.subrange(12, 20))
            &&& code_of(m.msg_type) == data@[20]
            &&& m.payload@ == data@.subrange(21, data@.len() as int)
        },
{
    if data.len() < 21 {
        return Err(UnicastError::Deserialization("Message too short".to_owned()));
    }
    let message_id = read_be_u64(data, 4);
    let timestamp_ns = read_be_u64(data, 12);
    let code = data[20];
    let msg_type = match MessageType::from_u8(code) {
        Some(t) => t,
        None => {
            return Err(UnicastError::InvalidMessageType(code));
        },
    };
    let payload = range_of(data, 21, data.len());
    Ok(UnicastMessage { message_id, timestamp_ns, msg_type, payload })
}

/// Decoding reads back what encoding wrote.
pub proof fn lemma_frame_round_trip(m: UnicastMessage)
    requires
        21 + m.payload@.len() <= u32::MAX,
    ensures
        ({
            let f = frame_of(m);
            &&& f.len() == 21 + m.payload@.len()
            &&& from_be_u64(f.subrange(4, 12)) == m.message_id
            &&& from_be_u64(f.subrange(12, 20)) == m.timestamp_ns
            &&& f[20] == code_of(m.msg_type)
            &&& f.subrange(21, f.len() as int) == m.payload@
        }),
{
    vstd::bytes::lemma_auto_spec_u64_to_from_le_bytes();
    let f = frame_of(m);
    assert(spec_u64_to_le_bytes(m.message_id).len() == 8);
    assert(spec_u64_to_le_bytes(m.timestamp_ns).len() == 8);
    assert(f.subrange(4, 12).reverse() =~= spec_u64_to_le_bytes(m.message_id));
    assert(f.subrange(12, 20).reverse() =~= spec_u64_to_le_bytes(m.timestamp_ns));
    assert(f.subrange(21, f.len() as int) =~= m.payload@);
}

} // verus!
