//! LXMF wire format, delivery, propagation and anti-spam rules.
//!
//! The crate performs no I/O: its adapters take the events of a Reticulum
//! stack, with what the stack knows about them, and return the calls that the
//! application has to make.
//!
//! # Propagation
//!
//! Both ends of the exchange between a client and a propagation node are here.
//! [`PropagationUpload`] is the envelope of an upload, [`MessageGetRequest`]
//! with [`MessageListResponse`] and [`MessageGetResponse`] carries the list,
//! download and acknowledgement exchange, [`PropagationSignal`] a node's
//! refusal of an upload, and [`PropagationNodeAnnounce`] a node's discovery
//! data. [`PropagationTransport`] is the client, [`PropagationNode`] the role
//! that stores uploads and answers requests, over any [`PropagationStore`].
//!
//! The exchange between two nodes lives in [`peering`]: the peer table, the
//! offer codec with its inbound gate, and the decisions of an outbound sync
//! round. [`PropagationUpload::decode`] accepts an envelope with one message
//! only; the form with several is [`PeerSyncEnvelope`]'s.
//!
//! # Proofs
//!
//! Every function states what it returns over mathematical values. The public
//! proof functions whose names start with `law` state what holds across
//! functions: what decoding gives back of an encoding, what every operation
//! keeps, and what never happens.
pub mod announce;
pub mod attachments;
pub mod bytemap;
pub mod constants;
pub mod control;
pub mod hash;
pub mod ieee;
pub mod laws;
pub mod message;
pub mod msgpack;
pub mod node;
pub mod paper;
pub mod peering;
pub mod propagation;
pub mod propagation_client;
pub mod propagation_node;
pub mod propagation_store;
pub mod router;
pub mod serve_cost;
pub mod snapshot;
pub mod stable;
pub mod storage;
pub mod text;
pub mod ticket;
pub mod transport;

pub use attachments::{
    AttachmentError, AudioAttachment, FileAttachment, ImageAttachment, MessageAttachments,
};
pub use control::{
    encode_control_ack, encode_control_error, ControlNodeStats, ControlPeerStats, ControlResponse,
    CONTROL_ASPECTS, HOPS_UNKNOWN, STATS_GET_PATH, SYNC_REQUEST_PATH, UNPEER_REQUEST_PATH,
};
pub use message::{DeliveryMethod, Field, Message, MessageError, Verification};
pub use node::{
    DeliveryFailure, DeliveryRepresentation, DirectLinkState, InboundRejection,
    IncomingResourceTransfer, LxmfNode, LxmfNodeConfig, LxmfNodeError, LxmfNodeEvent,
    LxmfNodeOutput, LxmfResourceSendParams, PreparedLxmfSend, SubmissionId,
};
pub use paper::{PaperError, PaperMessage};
pub use peering::{
    answer_offer, build_offer, peering_key_material, response_action, DeclineReason, DropReason,
    InboundGate, MemoryPeerStore, OfferPlan, OfferResponse, Peer, PeerChange, PeerOffer,
    PeerRecord, PeerStore, PeerSyncEnvelope, PeerTable, PeeringConfig, ResponseAction, SyncPhase,
    OFFER_REQUEST_PATH,
};
pub use propagation::{
    MessageGetRequest, MessageGetResponse, MessageListResponse, MetadataEntry, PeerError,
    PropagatedMessage, PropagationError, PropagationNodeAnnounce, PropagationSignal,
    PropagationUpload, TransferLimit, TransientId, MESSAGE_GET_PATH,
};
pub use propagation_client::{
    KnownPropagationNode, PreparedUpload, PropagationRequestKind, PropagationTransport,
    PropagationTransportError, PropagationTransportEvent, PropagationTransportOutput,
    PropagationUploadFailure, PropagationUploadRepresentation, UploadSendParams,
    PROPAGATION_ASPECT,
};
pub use propagation_node::{
    Eviction, EvictionReason, GetError, GetOutcome, PropagationNode, PropagationNodeConfig,
    UploadOutcome, MESSAGE_EXPIRY_SECS, PN_META_NAME,
};
pub use propagation_store::{MemoryPropagationStore, PropagationStore, StoredMessage};
pub use router::{
    BuiltResource, DeliveryStampRequest, InboundStampRequest, PendingResourceBuild,
    PropagationStampRequest,
};
