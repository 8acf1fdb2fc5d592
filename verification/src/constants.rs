//! Protocol constants of LXMF.
use vstd::prelude::*;

verus! {

/// Per-transfer limit for message propagation, in kilobytes.
pub const PROPAGATION_LIMIT_KB: u64 = 256;

/// Per-transfer limit for one LXMF delivery, in kilobytes.
pub const DELIVERY_LIMIT_KB: u64 = 1000;

/// The delivery limit in bytes. Exactly at the limit is accepted.
pub const DELIVERY_LIMIT_BYTES: u64 = DELIVERY_LIMIT_KB * 1000;

pub const DESTINATION_LENGTH: usize = 16;

pub const SIGNATURE_LENGTH: usize = 64;

pub const TICKET_LENGTH: usize = 16;

pub const STAMP_SIZE: usize = 32;

/// Bytes the msgpack payload spends on the message timestamp.
pub const TIMESTAMP_SIZE: usize = 8;

/// Bytes the msgpack payload spends on its own framing.
pub const STRUCT_OVERHEAD: usize = 8;

/// Bytes of a packed message beside its title, content and fields.
pub const LXMF_OVERHEAD: usize = 112;

pub const ENCRYPTED_PACKET_MAX_CONTENT: usize = 295;

pub const LINK_PACKET_MAX_CONTENT: usize = 319;

pub const PLAIN_PACKET_MAX_CONTENT: usize = 368;

pub const PAPER_MDU: usize = 2210;

pub const COST_TICKET: u16 = 256;

pub const TICKET_EXPIRY: u64 = 1_814_400;

pub const TICKET_GRACE: u64 = 432_000;

pub const TICKET_RENEW: u64 = 1_209_600;

pub const TICKET_INTERVAL: u64 = 86_400;

pub const STAMP_COST_EXPIRY: u64 = 45 * 24 * 60 * 60;

pub const WORKBLOCK_EXPAND_ROUNDS: usize = 3000;

/// Workblock expansion rounds for the outer propagation-node stamp.
pub const WORKBLOCK_EXPAND_ROUNDS_PN: usize = 1000;

/// Workblock expansion rounds for a node-to-node peering key.
pub const WORKBLOCK_EXPAND_ROUNDS_PEERING: usize = 25;

pub const FIELD_EMBEDDED_LXMS: i64 = 0x01;

pub const FIELD_TELEMETRY: i64 = 0x02;

pub const FIELD_TELEMETRY_STREAM: i64 = 0x03;

pub const FIELD_ICON_APPEARANCE: i64 = 0x04;

pub const FIELD_FILE_ATTACHMENTS: i64 = 0x05;

pub const FIELD_IMAGE: i64 = 0x06;

pub const FIELD_AUDIO: i64 = 0x07;

pub const AUDIO_MODE_CUSTOM: u8 = 0xFF;

pub const FIELD_THREAD: i64 = 0x08;

pub const FIELD_COMMANDS: i64 = 0x09;

pub const FIELD_RESULTS: i64 = 0x0A;

pub const FIELD_COMMANDS_EXECUTED: i64 = FIELD_RESULTS;

pub const FIELD_GROUP: i64 = 0x0B;

pub const FIELD_TICKET: i64 = 0x0C;

pub const FIELD_EVENT: i64 = 0x0D;

pub const FIELD_RNR_REFS: i64 = 0x0E;

pub const FIELD_RENDERER: i64 = 0x0F;

pub const FIELD_CUSTOM_TYPE: i64 = 0xFB;

pub const FIELD_CUSTOM_DATA: i64 = 0xFC;

pub const FIELD_CUSTOM_META: i64 = 0xFD;

pub const FIELD_NON_SPECIFIC: i64 = 0xFE;

pub const FIELD_DEBUG: i64 = 0xFF;

pub const FIELD_REPLY_TO: i64 = 0x30;

pub const FIELD_REPLY_QUOTE: i64 = 0x31;

pub const FIELD_REACTION: i64 = 0x40;

pub const FIELD_COMMENT: i64 = 0x41;

pub const FIELD_CONTINUATION: i64 = 0x42;

} // verus!
