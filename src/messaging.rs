//! Message framing types of the multicast and unicast transports.
pub mod multicast;
pub mod unicast;
