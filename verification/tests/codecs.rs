//! Announces, attachments, control statistics, messages, MessagePack and
//! paper messages.
use leviculum_lxmf::announce::{delivery, DeliveryAnnounce};
use leviculum_lxmf::constants::{
    AUDIO_MODE_CUSTOM, DESTINATION_LENGTH, ENCRYPTED_PACKET_MAX_CONTENT, FIELD_AUDIO,
    FIELD_FILE_ATTACHMENTS, FIELD_IMAGE, LINK_PACKET_MAX_CONTENT, LXMF_OVERHEAD, PAPER_MDU,
    PLAIN_PACKET_MAX_CONTENT, SIGNATURE_LENGTH, STRUCT_OVERHEAD, TICKET_LENGTH, TIMESTAMP_SIZE,
};
use leviculum_lxmf::control::{encode_control_ack, encode_control_error};
use leviculum_lxmf::message::SignatureCheck;
use leviculum_lxmf::msgpack;
use leviculum_lxmf::msgpack::{raw, skip, Error, Kind, Number, MAX_SKIP_DEPTH};
use leviculum_lxmf::{
    AttachmentError, AudioAttachment, ControlNodeStats, ControlPeerStats, ControlResponse,
    DeliveryMethod, FileAttachment, ImageAttachment, Message, MessageAttachments, MessageError,
    PaperError, PaperMessage, PeerError, PropagationUpload, Verification,
};
use sha2::Digest;

fn sha256(data: &[u8]) -> [u8; 32] {
    sha2::Sha256::digest(data).into()
}

// --- Delivery announces ----------------------------------------------------

#[test]
fn current_delivery_announce_round_trips() {
    let encoded = delivery(Some(b"Alice"), Some(8));
    let decoded = DeliveryAnnounce::decode(&encoded).unwrap();
    assert_eq!(decoded.display_name(), Some("Alice".into()));
    assert!(decoded.compression_supported);
}

#[test]
fn old_two_element_announce_remains_accepted() {
    let old = hex::decode("92c405416c69636508").unwrap();
    let decoded = DeliveryAnnounce::decode(&old).unwrap();
    assert!(decoded.compression_supported);
    assert_eq!(decoded.stamp_cost, Some(8));
}

#[test]
fn announce_has_the_wire_shape_of_three_elements() {
    let encoded = delivery(Some(b"Alice"), Some(8));
    assert_eq!(encoded, hex::decode("93c405416c696365089100").unwrap());
    let anonymous = delivery(None, None);
    assert_eq!(anonymous, hex::decode("93c0c09100").unwrap());
    let silent = DeliveryAnnounce {
        display_name: None,
        stamp_cost: None,
        compression_supported: false,
    };
    assert_eq!(silent.encode(), hex::decode("93c0c090").unwrap());
    assert_eq!(DeliveryAnnounce::decode(&silent.encode()).unwrap(), silent);
}

#[test]
fn empty_and_raw_announces_are_understood() {
    let empty = DeliveryAnnounce::decode(&[]).unwrap();
    assert_eq!(empty.display_name(), None);
    assert_eq!(empty.stamp_cost, None);
    assert!(empty.compression_supported);
    let raw_name = DeliveryAnnounce::decode(b"Bob").unwrap();
    assert_eq!(raw_name.display_name(), Some("Bob".into()));
}

#[test]
fn display_names_lose_zero_bytes_and_outer_space() {
    let spaced = DeliveryAnnounce::decode(&delivery(Some(b"  A\0li ce \0"), None)).unwrap();
    assert_eq!(spaced.display_name(), Some("Ali ce".into()));
    let broken = DeliveryAnnounce::decode(&delivery(Some(&[0xff, 0xfe]), None)).unwrap();
    assert_eq!(broken.display_name(), None);
}

#[test]
fn announces_with_a_cost_beyond_a_byte_are_rejected() {
    assert_eq!(
        DeliveryAnnounce::decode(&[0x92, 0xc0, 0xcd, 0x01, 0x00]),
        Err(Error::Overflow)
    );
}

// --- Attachments -----------------------------------------------------------

#[test]
fn standard_attachment_fields_round_trip() {
    let expected = MessageAttachments {
        files: vec![FileAttachment {
            name: "notes.txt".into(),
            data: b"hello".to_vec(),
        }],
        image: Some(ImageAttachment {
            format: "png".into(),
            data: vec![1, 2, 3],
        }),
        audio: Some(AudioAttachment {
            mode: AUDIO_MODE_CUSTOM,
            data: vec![4, 5, 6],
        }),
    };
    let fields = expected.clone().into_fields();
    assert_eq!(MessageAttachments::from_fields(&fields).unwrap(), expected);
}

#[test]
fn file_field_matches_python_lxmf_shape() {
    let fields = MessageAttachments {
        files: vec![FileAttachment {
            name: "a.txt".into(),
            data: vec![1, 2],
        }],
        ..MessageAttachments::default()
    }
    .into_fields();
    assert_eq!(
        fields,
        vec![(
            FIELD_FILE_ATTACHMENTS,
            vec![0x91, 0x92, 0xa5, b'a', b'.', b't', b'x', b't', 0xc4, 0x02, 0x01, 0x02]
        )]
    );
}

#[test]
fn image_and_audio_fields_match_python_lxmf_shapes() {
    let fields = MessageAttachments {
        image: Some(ImageAttachment {
            format: "png".into(),
            data: vec![1, 2, 3],
        }),
        audio: Some(AudioAttachment {
            mode: AUDIO_MODE_CUSTOM,
            data: vec![4, 5, 6],
        }),
        ..MessageAttachments::default()
    }
    .into_fields();
    assert_eq!(
        fields,
        vec![
            (
                FIELD_IMAGE,
                vec![0x92, 0xa3, b'p', b'n', b'g', 0xc4, 0x03, 0x01, 0x02, 0x03]
            ),
            (
                FIELD_AUDIO,
                vec![0x92, 0xcc, 0xff, 0xc4, 0x03, 0x04, 0x05, 0x06]
            ),
        ]
    );
}

#[test]
fn malformed_attachments_are_rejected() {
    let trailing = vec![(
        FIELD_IMAGE,
        vec![0x92, 0xa1, b'p', 0xc4, 0x01, 0x01, 0x00],
    )];
    assert_eq!(
        MessageAttachments::from_fields(&trailing),
        Err(AttachmentError::InvalidFormat)
    );
    let empty = MessageAttachments::from_fields(&[]).unwrap();
    assert_eq!(empty, MessageAttachments::default());
}

// --- Constants -------------------------------------------------------------

/// The transport's numbers that the LXMF limits are derived from.
const MTU: usize = 500;
const MDU: usize = MTU - 35 - 1;
const TOKEN_OVERHEAD: usize = 48;
const X25519_KEY_SIZE: usize = 32;
const AES_BLOCK_SIZE: usize = 16;
const TRUNCATED_HASHBYTES: usize = 16;
const ED25519_SIGNATURE_SIZE: usize = 64;
const STANDARD_LINK_MDU: usize = 431;

fn encrypted_mdu() -> usize {
    ((MDU - TOKEN_OVERHEAD - X25519_KEY_SIZE) / AES_BLOCK_SIZE) * AES_BLOCK_SIZE - 1
}

#[test]
fn lxmf_field_lengths_are_the_transports() {
    assert_eq!(DESTINATION_LENGTH, TRUNCATED_HASHBYTES);
    assert_eq!(TICKET_LENGTH, TRUNCATED_HASHBYTES);
    assert_eq!(SIGNATURE_LENGTH, ED25519_SIGNATURE_SIZE);
}

#[test]
fn lxmf_overhead_is_the_sum_of_its_parts() {
    assert_eq!(
        LXMF_OVERHEAD,
        2 * DESTINATION_LENGTH + SIGNATURE_LENGTH + TIMESTAMP_SIZE + STRUCT_OVERHEAD
    );
}

#[test]
fn encrypted_packet_max_content_is_derived_from_the_mtu() {
    let encrypted_packet_mdu = encrypted_mdu() + TIMESTAMP_SIZE;
    assert_eq!(
        ENCRYPTED_PACKET_MAX_CONTENT,
        encrypted_packet_mdu - LXMF_OVERHEAD + DESTINATION_LENGTH,
        "the opportunistic single-packet limit no longer matches an MTU of {MTU}"
    );
}

#[test]
fn link_packet_max_content_is_derived_from_the_link_mdu() {
    assert_eq!(
        LINK_PACKET_MAX_CONTENT,
        STANDARD_LINK_MDU - LXMF_OVERHEAD,
        "the single-packet-over-a-link limit no longer matches an MTU of {MTU}"
    );
}

#[test]
fn plain_packet_max_content_is_derived_from_the_mtu() {
    assert_eq!(
        PLAIN_PACKET_MAX_CONTENT,
        MDU - LXMF_OVERHEAD + DESTINATION_LENGTH
    );
}

// --- Control statistics ----------------------------------------------------

fn sample() -> ControlNodeStats {
    ControlNodeStats {
        identity_hash: [0x11; 16],
        destination_hash: [0x22; 16],
        uptime_secs: 42.5f64.to_bits(),
        delivery_limit_kb: Some(1000),
        propagation_limit_kb: Some(256),
        sync_limit_kb: Some(10240),
        target_stamp_cost: 16,
        stamp_cost_flexibility: 3,
        peering_cost: 18,
        max_peering_cost: 26,
        autopeer_maxdepth: Some(4),
        from_static_only: false,
        messagestore_count: 2,
        messagestore_bytes: 4096,
        messagestore_limit_bytes: Some(500_000_000),
        client_propagation_messages_received: 5,
        client_propagation_messages_served: 3,
        unpeered_propagation_incoming: 1,
        unpeered_propagation_rx_bytes: 2048,
        static_peers: 1,
        discovered_peers: 1,
        total_peers: 2,
        max_peers: Some(20),
        peers: vec![
            ControlPeerStats {
                peer_id: [0x33; 16],
                is_static: true,
                name: Some("pn-b".into()),
                alive: true,
                state: 0,
                last_heard: 1000,
                next_sync_attempt: 0,
                last_sync_attempt: 900,
                sync_backoff: 0,
                peering_timebase: 800,
                ler: 1200,
                str_rate: 40_000,
                transfer_limit_kb: Some(256),
                sync_limit_kb: Some(10240),
                target_stamp_cost: Some(16),
                stamp_cost_flexibility: Some(3),
                peering_cost: Some(18),
                peering_key_value: Some(19),
                network_distance: 1,
                rx_bytes: 100,
                tx_bytes: 200,
                acceptance_rate: 1.0f64.to_bits(),
                offered: 4,
                outgoing: 4,
                incoming: 2,
                unhandled: 0,
            },
            ControlPeerStats::default_for([0x44; 16]),
        ],
    }
}

#[test]
fn stats_round_trip() {
    let stats = sample();
    let encoded = stats.encode();
    let decoded = ControlNodeStats::decode(&encoded).expect("decode");
    assert_eq!(decoded, stats);
}

#[test]
fn control_responses_decode() {
    assert_eq!(
        ControlResponse::decode(&encode_control_ack()),
        Ok(ControlResponse::Ack)
    );
    assert_eq!(
        ControlResponse::decode(&encode_control_error(PeerError::NoAccess)),
        Ok(ControlResponse::Error(PeerError::NoAccess))
    );
    assert_eq!(ControlResponse::decode(&[0xC0]), Ok(ControlResponse::Nil));
    let stats = sample();
    match ControlResponse::decode(&stats.encode()) {
        Ok(ControlResponse::Stats(decoded)) => assert_eq!(*decoded, stats),
        other => panic!("stats response must decode as stats: {other:?}"),
    }
}

#[test]
fn control_replies_have_their_wire_form() {
    assert_eq!(encode_control_ack(), vec![0xc3]);
    assert_eq!(
        encode_control_error(PeerError::NoAccess),
        vec![0xcc, PeerError::NoAccess.code()]
    );
}

// --- Messages --------------------------------------------------------------

fn signed(seed: u8) -> [u8; 64] {
    [seed; 64]
}

#[test]
fn opportunistic_message_round_trips() {
    let destination_hash = [1; 16];
    let m = Message::create(
        destination_hash,
        [2; 16],
        Some(signed(9)),
        1_700_000_000.0f64.to_bits(),
        b"Hi".to_vec(),
        b"Hello".to_vec(),
        Vec::new(),
        DeliveryMethod::Opportunistic,
    )
    .unwrap();
    let u = Message::unpack(
        &m.on_air().unwrap(),
        Some(destination_hash),
        SignatureCheck::Accepted,
        DeliveryMethod::Opportunistic,
    )
    .unwrap();
    assert_eq!(u.verification, Verification::Valid);
    assert_eq!(u, m);
}

#[test]
fn the_identifier_is_the_hash_of_what_the_signature_covers() {
    let time = 1_700_000_000.0f64.to_bits();
    let (to_sign, id) = Message::signing_request(
        &[1; 16],
        &[2; 16],
        time,
        b"Hi",
        b"Hello",
        &Vec::new(),
    )
    .unwrap();
    let mut hashed = Vec::new();
    hashed.extend_from_slice(&[1; 16]);
    hashed.extend_from_slice(&[2; 16]);
    hashed.extend_from_slice(&hex::decode("94cb41d954fc40000000c4024869c40548656c6c6f80").unwrap());
    assert_eq!(id, sha256(&hashed));
    assert_eq!(&to_sign[..hashed.len()], &hashed[..]);
    assert_eq!(&to_sign[hashed.len()..], &id[..]);
}

#[test]
fn transient_identifiers_are_sha256() {
    let upload = PropagationUpload::single(0, b"abc".to_vec(), [0; 32]);
    assert_eq!(
        upload.transient_id().to_vec(),
        hex::decode("ba7816bf8f01cfea414140de5dae2223b00361a396177a9cb410ff61f20015ad").unwrap()
    );
}

#[test]
fn a_stamp_leaves_the_identifier_alone() {
    let mut m = Message::create(
        [1; 16],
        [2; 16],
        Some(signed(9)),
        1.0f64.to_bits(),
        Vec::new(),
        b"body".to_vec(),
        vec![(3, vec![0xc3])],
        DeliveryMethod::Direct,
    )
    .unwrap();
    let id = m.message_id;
    assert_eq!(m.set_stamp(vec![0; 17]), Err(MessageError::InvalidFormat));
    m.set_stamp(vec![7; 32]).unwrap();
    let u = Message::unpack(
        &m.pack(),
        None,
        SignatureCheck::NoIdentity,
        DeliveryMethod::Direct,
    )
    .unwrap();
    assert_eq!(u.message_id, id);
    assert_eq!(u.stamp, Some(vec![7; 32]));
    assert_eq!(u.verification, Verification::Unverified);
    let refused = Message::unpack(
        &m.pack(),
        None,
        SignatureCheck::Refused,
        DeliveryMethod::Direct,
    )
    .unwrap();
    assert_eq!(refused.verification, Verification::Invalid);
}

#[test]
fn bad_messages_are_refused() {
    assert_eq!(
        Message::unpack(&[0; 40], None, SignatureCheck::NoIdentity, DeliveryMethod::Direct),
        Err(MessageError::TooShort)
    );
    assert_eq!(
        Message::create(
            [1; 16],
            [2; 16],
            None,
            0,
            Vec::new(),
            Vec::new(),
            Vec::new(),
            DeliveryMethod::Direct,
        ),
        Err(MessageError::Identity)
    );
    assert_eq!(
        Message::create(
            [1; 16],
            [2; 16],
            Some(signed(1)),
            0,
            Vec::new(),
            Vec::new(),
            vec![(1, vec![0x92, 0x01])],
            DeliveryMethod::Direct,
        ),
        Err(MessageError::InvalidField)
    );
    let mut garbled = vec![0; 96];
    garbled.extend_from_slice(&[0x93, 0x01, 0x02, 0x03]);
    assert_eq!(
        Message::unpack(&garbled, None, SignatureCheck::NoIdentity, DeliveryMethod::Direct),
        Err(MessageError::InvalidFormat)
    );
}

// --- MessagePack -----------------------------------------------------------

#[test]
fn skip_rejects_deeply_nested_container() {
    let mut buf = vec![0x91u8; 100_000];
    buf.push(0x90); // innermost: empty array
    let mut pos = 0;
    assert_eq!(skip(&buf, &mut pos), Err(Error::Depth));
}

#[test]
fn skip_rejects_nesting_one_past_the_limit() {
    let mut buf = vec![0x91u8; MAX_SKIP_DEPTH + 1];
    buf.push(0xc0); // innermost value: nil
    let mut pos = 0;
    assert_eq!(skip(&buf, &mut pos), Err(Error::Depth));
}

#[test]
fn skip_accepts_nesting_at_depth_limit() {
    let mut buf = vec![0x91u8; MAX_SKIP_DEPTH];
    buf.push(0xc0); // innermost value: nil
    let mut pos = 0;
    skip(&buf, &mut pos).expect("nesting at the limit is accepted");
    assert_eq!(pos, buf.len(), "fully consumed");
}

#[test]
fn skip_budget_is_per_level_not_per_value() {
    let mut buf = vec![0x8fu8]; // fixmap, 15 entries
    for i in 0..15u8 {
        buf.push(0xa1); // fixstr len 1 (key)
        buf.push(b'k');
        buf.push(0x91); // fixarray len 1 (value)
        buf.push(i); // positive fixint
    }
    let mut pos = 0;
    skip(&buf, &mut pos).expect("a wide but shallow container is accepted");
    assert_eq!(pos, buf.len(), "fully consumed");
}

#[test]
fn raw_inherits_the_depth_bound() {
    let mut buf = vec![0x91u8; 100_000];
    buf.push(0x90);
    let mut pos = 0;
    assert_eq!(raw(&buf, &mut pos).err(), Some(Error::Depth));
}

#[test]
fn numbers_take_their_shortest_form() {
    let cases: [(u64, &str); 9] = [
        (0, "00"),
        (127, "7f"),
        (128, "cc80"),
        (255, "ccff"),
        (256, "cd0100"),
        (65_535, "cdffff"),
        (65_536, "ce00010000"),
        (4_294_967_295, "ceffffffff"),
        (4_294_967_296, "cf0000000100000000"),
    ];
    for (value, expected) in cases {
        let mut out = Vec::new();
        msgpack::uint(&mut out, value);
        assert_eq!(out, hex::decode(expected).unwrap());
        let mut p = 0;
        assert_eq!(msgpack::read_uint(&out, &mut p), Ok(value));
        assert_eq!(p, out.len());
    }
    let signed_cases: [(i64, &str); 8] = [
        (-1, "ff"),
        (-32, "e0"),
        (-33, "d0df"),
        (-128, "d080"),
        (-129, "d1ff7f"),
        (-32_769, "d2ffff7fff"),
        (-2_147_483_649, "d3ffffffff7fffffff"),
        (5, "05"),
    ];
    for (value, expected) in signed_cases {
        let mut out = Vec::new();
        msgpack::sint(&mut out, value);
        assert_eq!(out, hex::decode(expected).unwrap());
        let mut p = 0;
        assert_eq!(msgpack::read_int(&out, &mut p), Ok(value));
    }
}

#[test]
fn headers_take_their_shortest_form() {
    for (n, expected) in [(0usize, "90"), (15, "9f"), (16, "dc0010"), (65_536, "dd00010000")] {
        let mut out = Vec::new();
        msgpack::array(&mut out, n);
        assert_eq!(out, hex::decode(expected).unwrap());
        assert_eq!(msgpack::array_header_len(n), out.len());
        let mut p = 0;
        assert_eq!(msgpack::array_len(&out, &mut p), Ok(n));
    }
    for (n, expected) in [(1usize, "81"), (16, "de0010"), (65_536, "df00010000")] {
        let mut out = Vec::new();
        msgpack::map(&mut out, n);
        assert_eq!(out, hex::decode(expected).unwrap());
        let mut p = 0;
        assert_eq!(msgpack::map_len(&out, &mut p), Ok(n));
    }
    for (n, expected) in [(0usize, "c400"), (255, "c4ff"), (256, "c50100"), (65_536, "c600010000")] {
        let mut out = Vec::new();
        msgpack::bin_header(&mut out, n);
        assert_eq!(out, hex::decode(expected).unwrap());
        assert_eq!(msgpack::bin_header_len(n), out.len());
    }
}

#[test]
fn scalars_round_trip() {
    let mut out = Vec::new();
    msgpack::boolean(&mut out, true);
    msgpack::nil(&mut out);
    msgpack::double(&mut out, 1.5f64.to_bits());
    msgpack::string(&mut out, "h\u{e9}");
    msgpack::bin(&mut out, &[1, 2]);
    assert_eq!(out, hex::decode("c3c0cb3ff8000000000000a368c3a9c4020102").unwrap());
    let mut p = 0;
    assert_eq!(msgpack::read_bool(&out, &mut p), Ok(true));
    assert_eq!(msgpack::read_nil(&out, &mut p), Ok(()));
    assert_eq!(msgpack::read_f64(&out, &mut p), Ok(1.5f64.to_bits()));
    assert_eq!(msgpack::read_str(&out, &mut p), Ok("h\u{e9}"));
    assert_eq!(msgpack::read_bin(&out, &mut p), Ok(&[1u8, 2][..]));
    assert_eq!(p, out.len());
    assert_eq!(msgpack::read_bool(&out, &mut p), Err(Error::Truncated));
    let mut q = 0;
    assert_eq!(msgpack::read_uint(&out, &mut q), Err(Error::Type));
}

#[test]
fn numbers_of_every_kind_become_binary64() {
    let mut p = 0;
    assert_eq!(
        msgpack::read_number(&[0xca, 0x3f, 0xc0, 0, 0], &mut p).map(|n| n.as_f64()),
        Ok(1.5f64.to_bits())
    );
    for value in [-5i64, 0, 1 << 53, -(1 << 53), i64::MAX, i64::MIN] {
        let mut out = Vec::new();
        msgpack::sint(&mut out, value);
        let mut p = 0;
        assert_eq!(
            msgpack::read_number_f64(&out, &mut p),
            Ok((value as f64).to_bits())
        );
    }
    let mut p = 0;
    assert!(matches!(
        msgpack::read_number(&[0x07], &mut p),
        Ok(Number::Int(7))
    ));
}

#[test]
fn kinds_are_told_by_the_first_byte() {
    assert_eq!(msgpack::peek_kind(&[0xc0], 0), Ok(Kind::Nil));
    assert_eq!(msgpack::peek_kind(&[0xc3], 0), Ok(Kind::True));
    assert_eq!(msgpack::peek_kind(&[0x93], 0), Ok(Kind::Array));
    assert_eq!(msgpack::peek_kind(&[0x81], 0), Ok(Kind::Mapping));
    assert_eq!(msgpack::peek_kind(&[0xa1], 0), Ok(Kind::Str));
    assert_eq!(msgpack::peek_kind(&[], 0), Err(Error::Truncated));
}

#[test]
fn errors_have_texts() {
    assert!(!Error::Depth.message().is_empty());
    assert_ne!(Error::Depth.message(), Error::Type.message());
}

// --- Paper messages --------------------------------------------------------

const PACKED: &str = "cf0b2a4a8d2a0b6978b71290da7cc80e\
    fae321c442e3c9bdcd7a3e79d850e03c\
    fb321978105a4c709c3b86930ff15a9d7b53b3485517ec19e2083b39f7661e6\
    e531c78fb71d932f0baf13794c42234ab9320f1ab5b7688e93eaf5960810ece00\
    94cb41d954fc40000000c4024869c40548656c6c6f80";
const PAPER_BYTES: &str = "cf0b2a4a8d2a0b6978b71290da7cc80e\
    605a725d2a4adfeeb1a29e17edd621c1b7593ee8cdbc44ac6c4ab6e2f805d23c\
    c0c1c2c3c4c5c6c7c8c9cacbcccdcecf5f9b139c1648beda6ec1d5fff14e3d9\
    ef1ca40ea2df3a2293b23677c8eeda54354795d7e5ebe236ca1c63ffd42d6f56\
    0d3aeeda553ea80b4b98110aaac04813018d5a29f8de579401088b9ac5a71b5f\
    28655f455c9dba0a05fcc900de2ec7a80b803ef415d812d0c1d928508bbe30ab\
    d3c499c98e3e7ad60e7f3ffecea68cba92194662a17928582799df013ca56b39c";
const PAPER_URI: &str = "lxm://zwsqSo0qC2l4txKQ2nzIDmBacl0qSt_usaKeF-3WIcG3WT7ozbxErGxKtuL4BdI8wMHCw8TFxsfIycrLzM3Oz1-bE5wWSL7absHV__FOPZ7xykDqLfOiKTsjZ3yO7aVDVHldfl6-I2yhxj_9Qtb1YNOu7aVT6oC0uYEQqqwEgTAY1aKfjeV5QBCIuaxacbXyhlX0VcnboKBfzJAN4ux6gLgD70FdgS0MHZKFCLvjCr08SZyY4-etYOfz_-zqaMupIZRmKheShYJ5nfATylaznA";

fn first_sixteen(bytes: &[u8]) -> [u8; 16] {
    let mut out = [0u8; 16];
    out.copy_from_slice(&bytes[..16]);
    out
}

#[test]
fn python_paper_encryption_and_uri_vector() {
    let packed = hex::decode(PACKED).unwrap();
    let expected = hex::decode(PAPER_BYTES).unwrap();
    let destination = first_sixteen(&packed);
    assert_eq!(
        PaperMessage::plaintext(&packed, &destination).unwrap(),
        &packed[16..]
    );
    let paper =
        PaperMessage::encrypt(&packed, &destination, Some(expected[16..].to_vec())).unwrap();

    assert_eq!(paper.to_bytes(), expected);
    assert_eq!(paper.to_uri(), PAPER_URI);
    assert_eq!(PaperMessage::from_uri(PAPER_URI).unwrap(), paper);
    assert_eq!(
        paper.decrypt(&destination, Some(&packed[16..])).unwrap(),
        packed
    );
}

#[test]
fn uri_parser_matches_python_padding_and_slash_tolerance() {
    let paper = PaperMessage::from_uri(PAPER_URI).unwrap();
    let padded = format!("{}==", PAPER_URI);
    assert_eq!(PaperMessage::from_uri(&padded).unwrap(), paper);

    let split = format!("{}/{}", &PAPER_URI[..40], &PAPER_URI[40..]);
    assert_eq!(PaperMessage::from_uri(&split).unwrap(), paper);
}

#[test]
fn paper_destination_and_mdu_are_enforced() {
    let expected = hex::decode(PAPER_BYTES).unwrap();
    let paper = PaperMessage::from_bytes(&expected).unwrap();

    let other_destination = [0x77; 16];
    assert_eq!(
        paper.decrypt(&other_destination, None),
        Err(PaperError::WrongDestination)
    );

    let undersized = vec![0u8; LXMF_OVERHEAD - 1];
    assert_eq!(
        PaperMessage::from_bytes(&undersized),
        Err(PaperError::TooShort)
    );

    // The size limit holds for what is written, not for what is read.
    let oversized = vec![0u8; PAPER_MDU + 1];
    assert!(PaperMessage::from_bytes(&oversized).is_ok());
}

#[test]
fn paper_uris_with_faults_are_rejected() {
    assert_eq!(
        PaperMessage::from_uri("http://abcd"),
        Err(PaperError::InvalidScheme)
    );
    assert_eq!(
        PaperMessage::from_uri("lxm://ab*d"),
        Err(PaperError::InvalidBase64)
    );
    let packed = hex::decode(PACKED).unwrap();
    let destination = first_sixteen(&packed);
    assert_eq!(
        PaperMessage::encrypt(&packed, &[0; 16], Some(Vec::new())),
        Err(PaperError::WrongDestination)
    );
    assert_eq!(
        PaperMessage::encrypt(&packed, &destination, Some(vec![0; PAPER_MDU])),
        Err(PaperError::TooLarge)
    );
}

#[test]
fn a_control_refusal_is_never_false() {
    assert_eq!(ControlResponse::decode(&[0xc3]), Ok(ControlResponse::Ack));
    assert_eq!(ControlResponse::decode(&[0xc2]), Err(Error::Type));
}

#[test]
fn an_unpayable_stamp_cost_is_not_announced() {
    let unpayable = DeliveryAnnounce {
        display_name: None,
        stamp_cost: Some(255),
        compression_supported: true,
    };
    assert_eq!(unpayable.encode(), hex::decode("93c0c09100").unwrap());
    assert_eq!(delivery(None, Some(255)), unpayable.encode());
    let decoded = DeliveryAnnounce::decode(&unpayable.encode()).unwrap();
    assert_eq!(decoded.stamp_cost, None);
    // The costs next to it are announced, and zero is.
    for cost in [0, 1, 254] {
        let announced = DeliveryAnnounce::decode(&delivery(None, Some(cost))).unwrap();
        assert_eq!(announced.stamp_cost, Some(cost));
    }
    // What a peer announces is decoded as it stands.
    let heard = DeliveryAnnounce::decode(&[0x93, 0xc0, 0xcc, 0xff, 0x91, 0x00]).unwrap();
    assert_eq!(heard.stamp_cost, Some(255));
}

#[test]
fn a_shown_name_has_no_white_space_of_any_kind_at_its_ends() {
    for white in [
        '\t', '\n', '\u{b}', '\u{c}', '\r', ' ', '\u{85}', '\u{a0}', '\u{1680}', '\u{2000}',
        '\u{200a}', '\u{2028}', '\u{2029}', '\u{202f}', '\u{205f}', '\u{3000}',
    ] {
        let name = format!("{white}\0A{white}B\0{white}");
        let announce = DeliveryAnnounce::decode(&delivery(Some(name.as_bytes()), None)).unwrap();
        assert_eq!(announce.display_name(), Some(format!("A{white}B")));
    }
    // A zero-width space is none.
    let kept = "\u{200b}A\u{200b}";
    let announce = DeliveryAnnounce::decode(&delivery(Some(kept.as_bytes()), None)).unwrap();
    assert_eq!(announce.display_name(), Some(kept.into()));
}

#[test]
fn a_raw_value_does_not_depend_on_what_follows() {
    // [1, b"ab", {2: nil}] and something behind it.
    let value = [0x93, 0x01, 0xc4, 0x02, 0x61, 0x62, 0x81, 0x02, 0xc0];
    let mut longer = value.to_vec();
    longer.extend_from_slice(&[0xc1, 0xff]);
    for input in [&value[..], &longer[..]] {
        let mut pos = 0;
        assert_eq!(raw(input, &mut pos).unwrap(), &value[..]);
        assert_eq!(pos, value.len());
    }
    // Cut inside the value, the cursor stands behind the last part read.
    for (len, stop) in [(0, 0), (1, 1), (2, 2), (3, 3), (4, 4), (5, 4), (6, 6), (7, 7), (8, 8)] {
        let mut pos = 0;
        assert_eq!(
            raw(&value[..len], &mut pos).err(),
            Some(Error::Truncated),
            "{len}"
        );
        assert_eq!(pos, stop, "{len}");
        let mut skipped = 0;
        assert_eq!(skip(&value[..len], &mut skipped), Err(Error::Truncated));
        assert_eq!(skipped, stop);
    }
}
