//! A minimal single-process node runtime for line-delimited message
//! exchanges: a handshake establishes the node's identity, then a
//! sequential dispatch loop answers each incoming envelope with exactly
//! one correlated reply.

use vstd::prelude::*;

mod broadcast;
mod codec;
mod echo;
mod envelope;
mod generate;
mod node;


pub use broadcast::BroadcastNode;
pub use broadcast::BroadcastPayload;
pub use broadcast::BroadcastPayloadView;
pub use broadcast::TopologyEntry;
pub use echo::EchoNode;
pub use echo::EchoPayload;
pub use echo::EchoPayloadView;
pub use generate::GenerateNode;
pub use generate::GeneratePayload;
pub use generate::GeneratePayloadView;
pub use envelope::Body;
pub use envelope::BodyView;
pub use envelope::Message;
pub use envelope::MessageView;
pub use broadcast::TopologyEntryView;
pub use codec::PayloadCodec;
pub use codec::decode_message;
pub use codec::encode_message;
pub use codec::encoded_message;
pub use codec::recode_message;
pub use node::HandshakeError;
pub use node::InitPayload;
pub use node::InitPayloadView;
pub use node::Node;
pub use node::Workload;
pub use node::lemma_sent_ids_sequential;

verus! {

/// Reserved error code: operation timed out.
pub const _TIMEOUT: usize = 0;

/// Reserved error code: the addressed node does not exist.
pub const _NODE_NOT_FOUND: usize = 1;

/// Error code for a request variant the handler does not support.
pub const NOT_SUPPORTED: usize = 10;

/// Reserved error code: the node is temporarily unavailable.
pub const _TEMPORARILY_UNAVAILABLE: usize = 11;

/// Reserved error code: the request was malformed.
pub const _MALFORMED_REQUEST: usize = 12;

/// Reserved error code: the node crashed while processing.
pub const _CRASH: usize = 13;

/// Reserved error code: the request was aborted.
pub const _ABORT: usize = 14;

/// Reserved error code: the key does not exist.
pub const _KEY_DOES_NOT_EXIST: usize = 20;

/// Reserved error code: the key already exists.
pub const _KEY_ALREADY_EXISTS: usize = 21;

/// Reserved error code: a precondition did not hold.
pub const _PRECONDITION_FAILED: usize = 22;

/// Reserved error code: a transaction conflict occurred.
pub const _TXN_CONFLICT: usize = 30;

} // verus!
