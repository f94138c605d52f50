//! The tagged protocol message variants.

use vstd::prelude::*;

verus! {

/// The protocol messages exchanged between replicas. Operations, digests,
/// keys and signatures are carried as plain bytes; replica identifiers are
/// integers in `[0, N)` for honest senders.
pub enum PBFTMessage {
    /// A client request carrying an opaque operation.
    Request { operation: Vec<u8> },
    /// The primary's proposal ordering a request at a sequence number.
    PrePrepare { view: u64, sequence_number: u64, digest: Vec<u8> },
    /// A non-primary replica's echo of a proposal.
    Prepare { view: u64, sequence_number: u64, digest: Vec<u8>, sender_id: u64 },
    /// A replica's vote to commit an ordered request.
    Commit { view: u64, sequence_number: u64, digest: Vec<u8> },
    /// A vote to depose the current primary and move to `view`.
    ViewChange { view: u64, last_sequence_number: u64, node_id: u64 },
    /// The new primary's announcement of a view, carrying the ViewChange
    /// messages that justify it.
    NewView { view: u64, view_change_messages: Vec<PBFTMessage> },
    /// Bootstrap distribution of a replica's public key.
    PubKey { node_id: u64, public_key: Vec<u8> },
    /// The signed on-wire envelope wrapping any inner message.
    SignedMessage { message: Box<PBFTMessage>, signature: Vec<u8>, sender_id: u64 },
    /// An accusation that `suspected_id` has equivocated.
    ByzantineVote { suspected_id: u64, sender_id: u64 },
}

} // verus!
