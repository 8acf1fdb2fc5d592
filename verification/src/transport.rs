//! What the Reticulum stack below reports, and what is asked of it.
//!
//! The adapters in [`crate::propagation_client`] and [`crate::node`] make no
//! call into the stack themselves. They are given what it reported as a
//! [`CoreEvent`] together with the [`Facts`] that belong to it, and they name
//! the one call that the event demands as a [`CoreCall`].
use vstd::prelude::*;

use crate::message::SignatureCheck;

verus! {

/// Truncated hash that names a Reticulum destination.
pub type DestinationHash = [u8; 16];

/// Truncated hash that names a Reticulum link.
pub type LinkId = [u8; 16];

/// Which LXMF destination an announce names.
#[derive(Debug, Clone, Copy, PartialEq, Eq, Structural)]
pub enum Aspect {
    Delivery,
    Propagation,
    Other,
}

/// Why a Resource transfer did not complete.
#[derive(Debug, Clone, Copy, PartialEq, Eq, Structural)]
pub enum ResourceError {
    Timeout,
    Cancelled,
    LinkClosed,
    LinkStateChanged,
    ResourceTooLarge,
    Other,
}

/// Why a link went away.
#[derive(Debug, Clone, Copy, PartialEq, Eq, Structural)]
pub enum LinkCloseReason {
    Normal,
    Timeout,
    PeerClosed,
    Other,
}

/// Why a single packet was given up.
#[derive(Debug, Clone, Copy, PartialEq, Eq, Structural)]
pub enum DeliveryError {
    Timeout,
    Other,
}

/// Why a packet could not be sent.
#[derive(Debug, Clone, Copy, PartialEq, Eq, Structural)]
pub enum SendError {
    NoPath,
    Other,
}

/// Why a request could not be sent.
#[derive(Debug, Clone, Copy, PartialEq, Eq, Structural)]
pub enum RequestError {
    PayloadTooLarge,
    Other,
}

/// What is read of a destination before an adapter is built on it.
#[derive(Debug, Clone, Copy, PartialEq, Eq)]
pub struct DestinationInfo {
    pub hash: DestinationHash,
    /// The destination receives, rather than addresses another node.
    pub incoming: bool,
    /// The destination is of the single-identity kind.
    pub single: bool,
    pub aspect: Aspect,
    pub identity_hash: Option<[u8; 16]>,
}

/// One report of the Reticulum stack. Progress is the bits of a single
/// precision number between zero and one.
#[derive(Debug, Clone, PartialEq, Eq)]
pub enum CoreEvent {
    AnnounceReceived { destination: DestinationHash, aspect: Aspect, app_data: Vec<u8> },
    PathFound { destination: DestinationHash },
    LinkEstablished { link_id: LinkId, is_initiator: bool },
    /// The remote end of a link proved its identity; `peer` is the delivery
    /// destination of that identity.
    LinkIdentified { link_id: LinkId, peer: DestinationHash },
    LinkClosed {
        link_id: LinkId,
        reason: LinkCloseReason,
        is_initiator: bool,
        destination: DestinationHash,
    },
    PacketProofRequested {
        packet_hash: [u8; 32],
        destination: DestinationHash,
        interface_index: usize,
    },
    LinkProofRequested { link_id: LinkId, packet_hash: [u8; 32] },
    PacketReceived { destination: DestinationHash, data: Vec<u8> },
    LinkDataReceived { link_id: LinkId, data: Vec<u8> },
    PacketDeliveryConfirmed { packet_hash: [u8; 16] },
    DeliveryFailed { packet_hash: [u8; 16], error: DeliveryError },
    LinkDeliveryConfirmed { link_id: LinkId, packet_hash: [u8; 32] },
    LinkDeliveryFailed { link_id: LinkId, packet_hash: [u8; 32] },
    ResponseReceived { link_id: LinkId, request_id: [u8; 16], response_data: Vec<u8> },
    RequestTimedOut { link_id: LinkId, request_id: [u8; 16] },
    ResourceAdvertised {
        link_id: LinkId,
        resource_hash: [u8; 32],
        transfer_size: u64,
        data_size: u64,
    },
    ResourceTransferStarted { link_id: LinkId, resource_hash: [u8; 32], is_sender: bool },
    ResourceProgress {
        link_id: LinkId,
        resource_hash: [u8; 32],
        progress: u32,
        transfer_size: u64,
        data_size: u64,
        is_sender: bool,
    },
    ResourceCompleted {
        link_id: LinkId,
        resource_hash: [u8; 32],
        data: Vec<u8>,
        is_sender: bool,
        segment_index: u32,
        total_segments: u32,
    },
    ResourceFailed {
        link_id: LinkId,
        resource_hash: [u8; 32],
        error: ResourceError,
        is_sender: bool,
    },
    Other,
}

/// What the stack knows about the destination or the link of an event, and
/// what it answered to the call that the event demanded.
#[derive(Debug, Clone, Copy, PartialEq, Eq)]
pub struct Facts {
    /// A path to the destination is known.
    pub has_path: bool,
    /// The identity behind the destination is known.
    pub identity_known: bool,
    /// The destination that the link leads to, where the stack has the link.
    pub link_destination: Option<DestinationHash>,
    /// The stack has the link, and this side opened it.
    pub link_initiator: bool,
    /// The private identity of the local destination is at hand.
    pub has_identity: bool,
    /// What checking the signature of a received message gave.
    pub signature: SignatureCheck,
    /// How much of a whole message has been transferred, as the bits of a
    /// single precision number.
    pub overall: u32,
    /// The link that a `Connect` opened.
    pub new_link: LinkId,
    /// The error that the demanded call returned, if it failed.
    pub refused: Option<ResourceError>,
}

impl Facts {
    /// Nothing is known, and the demanded call succeeded without opening a
    /// link: the link is all zeros.
    pub fn none() -> (r: Facts)
        ensures
            !r.has_path && !r.identity_known && r.link_destination is None && !r.link_initiator,
            !r.has_identity && r.signature is NoIdentity && r.overall == 0,
            r.new_link@ == Seq::new(16, |i: int| 0u8),
            r.refused is None,
    {
        Facts {
            has_path: false,
            identity_known: false,
            link_destination: None,
            link_initiator: false,
            has_identity: false,
            signature: SignatureCheck::NoIdentity,
            overall: 0,
            new_link: [0u8;16],
            refused: None,
        }
    }
}

/// A call into the Reticulum stack.
#[derive(Debug, Clone, Copy, PartialEq, Eq)]
pub enum CoreCall {
    RequestPath { destination: DestinationHash },
    Connect { destination: DestinationHash },
    CloseLink { link_id: LinkId },
    IdentifyLink { link_id: LinkId },
    /// Have the adapter decide about each Resource offered on a link.
    DecideResources { link_id: LinkId },
    AcceptResource { link_id: LinkId },
    RejectResource { link_id: LinkId },
    ProvePacket { packet_hash: [u8; 32], destination: DestinationHash, interface_index: usize },
    ProveLinkData { link_id: LinkId, packet_hash: [u8; 32] },
}

} // verus!
