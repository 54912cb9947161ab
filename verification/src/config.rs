//! Compile-time sizing of the broker.

use vstd::prelude::*;

verus! {

/// How many messages can be queued simultaneously. While the queue is full,
/// publishers are held back until every pending message has been delivered.
pub const QUEUE_LEN: usize = 1;

/// How many `(filter, subscriber)` pairs the topic table can hold.
pub const TREE_SIZE: usize = 64;

/// Upper bound on the size of a single serialized message.
pub const MAX_MESSAGE_SIZE: usize = 1024;

/// Upper bound on the size of a serialized will message.
pub const MAX_WILL_LENGTH: usize = 128;

/// Upper bound on the byte length of a topic or topic filter.
pub const MAX_TOPIC_LENGTH: usize = 64;

/// Number of 32-bit words in a subscriber bitset.
pub const BITSET_WORDS: usize = 2;

/// Width of a subscriber bitset: the maximum number of connections the
/// shared data structures support.
pub const MAX_CONNECTIONS: usize = 64;

} // verus!
