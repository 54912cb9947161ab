//! Error kinds surfaced by the broker core, and their mapping onto MQTT v5
//! reason codes.

use vstd::prelude::*;

verus! {

/// Errors reported by the distributor to a connection driver.
#[derive(Clone, Copy, Debug, PartialEq, Eq, Structural)]
pub enum DistributorError {
    /// A topic or topic filter exceeds `MAX_TOPIC_LENGTH`.
    TopicTooLong,
    /// A serialized message exceeds `MAX_MESSAGE_SIZE` (or a will exceeds
    /// `MAX_WILL_LENGTH`).
    MessageTooLong,
    /// The shared queue (or the topic table) is out of capacity.
    QueueFull,
    /// The peer sent a packet kind the broker does not accept.
    UnexpectedPacket,
    /// Transport-level or other unclassified failure.
    Unknown,
}

/// Errors reported by the frame codec.
#[derive(Clone, Copy, Debug, PartialEq, Eq, Structural)]
pub enum MqttCodecError {
    /// More bytes are needed before a packet can be parsed.
    Incomplete,
    /// A complete frame failed to parse as a supported MQTT v5 packet.
    Invalid,
    /// The length prefix is malformed, or announces a packet that cannot
    /// fit the codec buffer.
    InvalidLength,
    /// A packet to be written does not fit the encoder buffer.
    BufferTooSmall,
    /// The transport failed mid-packet.
    ConnectionReset,
}

/// Errors reported by the topic filter table.
#[derive(Clone, Copy, Debug, PartialEq, Eq, Structural)]
pub enum TopicsError {
    /// The filter exceeds `MAX_TOPIC_LENGTH`.
    TopicTooLong,
    /// The table already holds `TREE_SIZE` entries.
    Full,
}

impl From<TopicsError> for DistributorError {
    fn from(e: TopicsError) -> (r: Self) {
        match e {
            TopicsError::TopicTooLong => DistributorError::TopicTooLong,
            TopicsError::Full => DistributorError::QueueFull,
        }
    }
}

impl vstd::std_specs::convert::FromSpecImpl<TopicsError> for DistributorError {
    open spec fn obeys_from_spec() -> bool {
        true
    }

    open spec fn from_spec(e: TopicsError) -> Self {
        match e {
            TopicsError::TopicTooLong => DistributorError::TopicTooLong,
            TopicsError::Full => DistributorError::QueueFull,
        }
    }
}

/// MQTT v5 DISCONNECT reason code announced for each distributor error.
pub fn disconnect_reason_code(e: DistributorError) -> (r: u8)
    ensures
        r == spec_disconnect_reason_code(e),
{
    match e {
        DistributorError::TopicTooLong => 0x90,
        DistributorError::MessageTooLong => 0x95,
        DistributorError::QueueFull => 0x93,
        DistributorError::UnexpectedPacket => 0x82,
        DistributorError::Unknown => 0x80,
    }
}

/// `TopicNameInvalid`, `PacketTooLarge`, `ReceiveMaximumExceeded`,
/// `ProtocolError` and `UnspecifiedError`, in the order of the error kinds.
pub open spec fn spec_disconnect_reason_code(e: DistributorError) -> u8 {
    match e {
        DistributorError::TopicTooLong => 0x90,
        DistributorError::MessageTooLong => 0x95,
        DistributorError::QueueFull => 0x93,
        DistributorError::UnexpectedPacket => 0x82,
        DistributorError::Unknown => 0x80,
    }
}

/// MQTT v5 SUBACK reason code announced for each distributor error.
pub fn suback_reason_code(e: DistributorError) -> (r: u8)
    ensures
        r == spec_suback_reason_code(e),
{
    match e {
        DistributorError::TopicTooLong => 0x8F,
        DistributorError::MessageTooLong => 0x80,
        DistributorError::QueueFull => 0x97,
        DistributorError::UnexpectedPacket => 0x83,
        DistributorError::Unknown => 0x80,
    }
}

/// `TopicFilterInvalid`, `QuotaExceeded`, `ImplementationSpecificError` and
/// `UnspecifiedError`, in the order of the error kinds.
pub open spec fn spec_suback_reason_code(e: DistributorError) -> u8 {
    match e {
        DistributorError::TopicTooLong => 0x8F,
        DistributorError::MessageTooLong => 0x80,
        DistributorError::QueueFull => 0x97,
        DistributorError::UnexpectedPacket => 0x83,
        DistributorError::Unknown => 0x80,
    }
}

} // verus!
