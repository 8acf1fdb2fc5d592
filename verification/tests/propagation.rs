//! Propagation codecs and the message store.
use leviculum_lxmf::constants::{DESTINATION_LENGTH, STAMP_SIZE};
use leviculum_lxmf::msgpack;
use leviculum_lxmf::propagation_store::MIN_BODY_LEN;
use leviculum_lxmf::storage::StorageError;
use leviculum_lxmf::{
    MemoryPropagationStore, MessageGetRequest, MessageGetResponse, MessageListResponse, PeerError,
    PropagatedMessage, PropagationError, PropagationNodeAnnounce, PropagationSignal,
    PropagationStore, PropagationUpload, TransferLimit, TransientId,
};

fn id(start: u8) -> TransientId {
    let mut id = [0u8; 32];
    for (offset, byte) in id.iter_mut().enumerate() {
        *byte = start + offset as u8;
    }
    id
}

#[test]
fn client_codecs_round_trip_for_the_test_mailbox() {
    let request = MessageGetRequest {
        wants: Some(vec![id(32)]),
        haves: Some(vec![id(64)]),
        transfer_limit_kb: Some(TransferLimit::Integer(1000)),
    };
    let encoded = request.encode().unwrap();
    assert_eq!(MessageGetRequest::decode(&encoded).unwrap(), request);
    let list_request = MessageGetRequest::list();
    assert_eq!(
        MessageGetRequest::decode(&list_request.encode().unwrap()).unwrap(),
        list_request
    );
    let acknowledge = MessageGetRequest::acknowledge(vec![id(0)]);
    assert_eq!(
        MessageGetRequest::decode(&acknowledge.encode().unwrap()).unwrap(),
        acknowledge
    );

    let list = MessageListResponse::TransientIds(vec![id(32), id(64)]);
    assert_eq!(
        MessageListResponse::decode(&list.encode().unwrap()).unwrap(),
        list
    );

    let messages = MessageGetResponse::Messages(vec![b"one".to_vec(), b"two".to_vec()]);
    assert_eq!(
        MessageGetResponse::decode(&messages.encode().unwrap()).unwrap(),
        messages
    );

    for error in [PeerError::NoIdentity, PeerError::NoAccess] {
        let list_error = MessageListResponse::Error(error);
        assert_eq!(
            MessageListResponse::decode(&list_error.encode().unwrap()).unwrap(),
            list_error
        );
        let get_error = MessageGetResponse::Error(error);
        assert_eq!(
            MessageGetResponse::decode(&get_error.encode().unwrap()).unwrap(),
            get_error
        );
    }
}

#[test]
fn propagation_announce_round_trips_for_discovery_tests() {
    let announce = PropagationNodeAnnounce {
        legacy_support: false,
        timebase: 1_700_000_000,
        enabled: true,
        transfer_limit_kb: 256,
        sync_limit_kb: 10_240,
        stamp_cost: 16,
        stamp_cost_flexibility: 3,
        peering_cost: 18,
        metadata: vec![(1, vec![0xc4, 4, b'N', b'o', b'd', b'e'])],
    };
    assert_eq!(
        PropagationNodeAnnounce::decode(&announce.encode().unwrap()).unwrap(),
        announce
    );
}

#[test]
fn propagation_announce_accepts_lxmf_1_1_float_limit() {
    let bytes = hex::decode(
        "97c2ce6a693f31c3cb4090000000000000cd2800931003128101c413\
         50726f7061676174696f6e204e6f6465204e4c"
            .replace(char::is_whitespace, ""),
    )
    .unwrap();

    let announce = PropagationNodeAnnounce::decode(&bytes).unwrap();
    assert_eq!(announce.transfer_limit_kb, 1_024);
    assert_eq!(announce.sync_limit_kb, 10_240);
    assert_eq!(
        announce.metadata,
        vec![(
            1,
            [&[0xc4, 0x13], b"Propagation Node NL".as_slice(),].concat(),
        )]
    );
}

#[test]
fn propagation_announce_float_limits_follow_python_int_semantics() {
    let mut bytes = Vec::new();
    msgpack::array(&mut bytes, 7);
    msgpack::boolean(&mut bytes, false);
    msgpack::uint(&mut bytes, 1_700_000_000);
    msgpack::boolean(&mut bytes, true);
    msgpack::double(&mut bytes, 0.38f64.to_bits());
    msgpack::double(&mut bytes, 10_240.9f64.to_bits());
    msgpack::array(&mut bytes, 3);
    msgpack::uint(&mut bytes, 16);
    msgpack::uint(&mut bytes, 3);
    msgpack::uint(&mut bytes, 18);
    msgpack::map(&mut bytes, 0);

    let announce = PropagationNodeAnnounce::decode(&bytes).unwrap();
    assert_eq!(announce.transfer_limit_kb, 0);
    assert_eq!(announce.sync_limit_kb, 10_240);
}

#[test]
fn propagation_announce_rejects_invalid_float_limits() {
    for (value, expected) in [
        (-0.1f64, PropagationError::InvalidValue),
        (f64::NAN, PropagationError::InvalidValue),
        (f64::INFINITY, PropagationError::InvalidValue),
        (u64::MAX as f64, PropagationError::Overflow),
    ] {
        let mut bytes = Vec::new();
        msgpack::array(&mut bytes, 7);
        msgpack::boolean(&mut bytes, false);
        msgpack::uint(&mut bytes, 1_700_000_000);
        msgpack::boolean(&mut bytes, true);
        msgpack::double(&mut bytes, value.to_bits());
        msgpack::uint(&mut bytes, 10_240);
        msgpack::array(&mut bytes, 3);
        msgpack::uint(&mut bytes, 16);
        msgpack::uint(&mut bytes, 3);
        msgpack::uint(&mut bytes, 18);
        msgpack::map(&mut bytes, 0);

        assert_eq!(PropagationNodeAnnounce::decode(&bytes), Err(expected));
    }
}

#[test]
fn malformed_and_trailing_values_are_rejected() {
    assert_eq!(
        MessageGetRequest::decode(&[0x92, 0xc0, 0xc0, 0x00]),
        Err(PropagationError::TrailingData)
    );
}

#[test]
fn singleton_upload_matches_python_msgpack_golden_vector() {
    let unstamped: Vec<u8> = (0..48).collect();
    let mut stamp = [0u8; STAMP_SIZE];
    for (offset, byte) in stamp.iter_mut().enumerate() {
        *byte = 0xa0 + offset as u8;
    }
    let upload = PropagationUpload::single(1_700_000_000.25f64.to_bits(), unstamped, stamp);

    assert_eq!(
        upload.transient_id(),
        &[
            0x4d, 0xbd, 0xc2, 0xb2, 0xb6, 0x2c, 0xb0, 0x07, 0x49, 0x78, 0x5b, 0xc8, 0x42, 0x02,
            0x23, 0x6d, 0xbc, 0x37, 0x77, 0xd7, 0x46, 0x60, 0x61, 0x1b, 0x8e, 0x58, 0x81, 0x2f,
            0x0c, 0xfd, 0xe6, 0xc3,
        ]
    );
    assert_eq!(
        upload.encode(),
        vec![
            0x92, 0xcb, 0x41, 0xd9, 0x54, 0xfc, 0x40, 0x10, 0x00, 0x00, 0x91, 0xc4, 0x50, 0x00,
            0x01, 0x02, 0x03, 0x04, 0x05, 0x06, 0x07, 0x08, 0x09, 0x0a, 0x0b, 0x0c, 0x0d, 0x0e,
            0x0f, 0x10, 0x11, 0x12, 0x13, 0x14, 0x15, 0x16, 0x17, 0x18, 0x19, 0x1a, 0x1b, 0x1c,
            0x1d, 0x1e, 0x1f, 0x20, 0x21, 0x22, 0x23, 0x24, 0x25, 0x26, 0x27, 0x28, 0x29, 0x2a,
            0x2b, 0x2c, 0x2d, 0x2e, 0x2f, 0xa0, 0xa1, 0xa2, 0xa3, 0xa4, 0xa5, 0xa6, 0xa7, 0xa8,
            0xa9, 0xaa, 0xab, 0xac, 0xad, 0xae, 0xaf, 0xb0, 0xb1, 0xb2, 0xb3, 0xb4, 0xb5, 0xb6,
            0xb7, 0xb8, 0xb9, 0xba, 0xbb, 0xbc, 0xbd, 0xbe, 0xbf,
        ]
    );
}

#[test]
fn invalid_stamp_signal_is_exact_and_strict() {
    assert_eq!(
        PropagationSignal::decode(&[0x91, 0xcc, 0xf5]),
        Ok(PropagationSignal::InvalidStamp)
    );
    assert_eq!(
        PropagationSignal::decode(&[0x92, 0xcc, 0xf5, 0xcc, 0xf5]),
        Err(PropagationError::InvalidLength)
    );
    assert_eq!(
        PropagationSignal::decode(&[0x91, 0xcc, 0xf4]),
        Err(PropagationError::InvalidValue)
    );
    assert_eq!(
        PropagationSignal::decode(&[0x91, 0xcc, 0xf5, 0xc0]),
        Err(PropagationError::TrailingData)
    );
}

#[test]
fn host_decodes_client_upload_envelope() {
    let unstamped = {
        let mut v = vec![0x11u8; DESTINATION_LENGTH];
        v.extend_from_slice(&[0xAB; 64]);
        v
    };
    let upload = PropagationUpload::single(1_700_000_000.5f64.to_bits(), unstamped, [0x5A; STAMP_SIZE]);
    let wire = upload.encode();

    let decoded = PropagationUpload::decode(&wire).expect("round-trip");
    assert_eq!(decoded, upload);
    assert_eq!(decoded.transient_id(), upload.transient_id());

    let tiny =
        PropagationUpload::single(1.0f64.to_bits(), vec![0u8; DESTINATION_LENGTH], [0u8; STAMP_SIZE]).encode();
    assert_eq!(
        PropagationUpload::decode(&tiny),
        Err(PropagationError::InvalidLength)
    );
    assert!(PropagationUpload::decode(&[0x91]).is_err());
}

#[test]
fn host_serves_the_get_exchange_with_public_codecs() {
    let list_req = MessageGetRequest::list();
    let decoded = MessageGetRequest::decode(&list_req.encode().expect("encode")).expect("decode");
    assert_eq!(decoded, list_req);

    let ids = vec![[0x01u8; 32], [0x02u8; 32]];
    let listing = MessageListResponse::TransientIds(ids.clone());
    let wire = listing.encode().expect("encode");
    assert_eq!(
        MessageListResponse::decode(&wire).expect("decode"),
        MessageListResponse::TransientIds(ids)
    );

    let msgs = vec![vec![0xAA; 40], vec![0xBB; 12]];
    let get = MessageGetResponse::Messages(msgs.clone());
    assert_eq!(
        MessageGetResponse::decode(&get.encode().expect("encode")).expect("decode"),
        MessageGetResponse::Messages(msgs)
    );
    let err = MessageListResponse::Error(PeerError::Throttled);
    assert_eq!(
        MessageListResponse::decode(&err.encode().expect("encode")).expect("decode"),
        MessageListResponse::Error(PeerError::Throttled)
    );

    let ann = PropagationNodeAnnounce {
        legacy_support: false,
        timebase: 1_700_000_000,
        enabled: true,
        transfer_limit_kb: 1024,
        sync_limit_kb: 4096,
        stamp_cost: 12,
        stamp_cost_flexibility: 2,
        peering_cost: 0,
        metadata: Vec::new(),
    };
    let wire = ann.encode().expect("encode");
    assert_eq!(PropagationNodeAnnounce::decode(&wire).expect("decode"), ann);
}

fn body_for(destination: u8, len: usize) -> Vec<u8> {
    let mut body = vec![destination; len];
    body[DESTINATION_LENGTH..].fill(0xAB);
    body
}

#[test]
fn append_iterate_read_purge_round_trip() {
    let mut store = MemoryPropagationStore::new(1024);
    let body = body_for(7, 100);
    store.append(&[1; 32], 1000, 3, &body).unwrap();

    let seen = store.directory().unwrap();
    assert_eq!(seen.len(), 1);
    assert_eq!(seen[0].transient_id, [1; 32]);
    assert_eq!(seen[0].destination_hash, [7; DESTINATION_LENGTH]);
    assert_eq!(seen[0].size, 100);
    assert_eq!(seen[0].received_at, 1000);
    assert_eq!(seen[0].stamp_value, 3);

    assert_eq!(store.read_body(&[1; 32]).unwrap(), Some(body));
    assert!(store.contains(&[1; 32]).unwrap());
    assert!(store.purge(&[1; 32]).unwrap());
    assert!(!store.purge(&[1; 32]).unwrap());
    assert_eq!(store.read_body(&[1; 32]).unwrap(), None);
    assert_eq!(store.free_space(), 1024);
}

#[test]
fn the_directory_ascends_by_transient_id() {
    let mut store = MemoryPropagationStore::new(1024);
    for byte in [9, 3, 200] {
        store.append(&[byte; 32], 0, 0, &body_for(1, 60)).unwrap();
    }
    let ids: Vec<u8> = store
        .directory()
        .unwrap()
        .iter()
        .map(|entry| entry.transient_id[0])
        .collect();
    assert_eq!(ids, vec![3, 9, 200]);
}

#[test]
fn capacity_refuses_with_full_and_keeps_the_store_intact() {
    let mut store = MemoryPropagationStore::new(120);
    store.append(&[1; 32], 0, 0, &body_for(1, 100)).unwrap();
    assert_eq!(
        store.append(&[2; 32], 0, 0, &body_for(2, 60)),
        Err(StorageError::Full)
    );
    assert!(store.contains(&[1; 32]).unwrap());
    assert_eq!(store.free_space(), 20);
}

#[test]
fn a_body_below_the_minimum_is_refused() {
    let mut store = MemoryPropagationStore::new(1024);
    assert_eq!(
        store.append(&[1; 32], 0, 0, &[0u8; MIN_BODY_LEN - 1]),
        Err(StorageError::Corrupt)
    );
}

#[test]
fn sequence_numbers_only_grow() {
    let mut store = MemoryPropagationStore::new(1024);
    store.append(&[2; 32], 10, 0, &body_for(1, 60)).unwrap();
    store.append(&[1; 32], 20, 0, &body_for(1, 60)).unwrap();
    assert!(store.purge(&[1; 32]).unwrap());
    store.append(&[3; 32], 30, 0, &body_for(1, 60)).unwrap();
    let mut sequences: Vec<u64> = store
        .directory()
        .unwrap()
        .iter()
        .map(|entry| entry.sequence)
        .collect();
    sequences.sort();
    assert_eq!(sequences.len(), 2);
    assert!(sequences[0] < sequences[1]);
    assert_eq!(store.newest_sequence().unwrap(), sequences[1]);
    assert_eq!(store.len(), 2);
    assert!(!store.is_empty());
    assert_eq!(store.capacity(), 1024);
}

#[test]
fn the_signal_is_three_bytes() {
    assert_eq!(
        PropagationSignal::InvalidStamp.encode(),
        vec![0x91, 0xcc, 0xf5]
    );
}

#[test]
fn several_messages_are_not_an_upload() {
    let mut bytes = Vec::new();
    msgpack::array(&mut bytes, 2);
    msgpack::double(&mut bytes, 1.0f64.to_bits());
    msgpack::array(&mut bytes, 2);
    msgpack::bin(&mut bytes, &[1; 200]);
    msgpack::bin(&mut bytes, &[2; 200]);
    assert_eq!(
        PropagationUpload::decode(&bytes),
        Err(PropagationError::MultipleMessages)
    );
    assert_eq!(
        PropagationUpload::decode(&bytes[..9]),
        Err(PropagationError::Truncated)
    );
}

#[test]
fn propagated_messages_part_into_destination_and_payload() {
    let mut bytes = vec![7u8; 16];
    bytes.extend_from_slice(&[9; 100]);
    let message = PropagatedMessage::from_unstamped_bytes(&bytes).unwrap();
    assert_eq!(message.destination_hash(), &[7; 16]);
    assert_eq!(message.encrypted_payload(), &[9; 100][..]);
    assert_eq!(
        message.decrypt(&[7; 16], Some(&[1, 2])).unwrap()[..],
        [&[7u8; 16][..], &[1, 2]].concat()[..]
    );
    assert_eq!(
        message.decrypt(&[8; 16], Some(&[1, 2])),
        Err(PropagationError::WrongDestination)
    );
    assert_eq!(
        message.decrypt(&[7; 16], None),
        Err(PropagationError::Decryption)
    );
    assert_eq!(
        PropagatedMessage::from_unstamped_bytes(&bytes[..112]),
        Err(PropagationError::InvalidLength)
    );
}

#[test]
fn transfer_limits_keep_their_kind() {
    let request = MessageGetRequest {
        wants: Some(Vec::new()),
        haves: None,
        transfer_limit_kb: Some(TransferLimit::Float(0.5f64.to_bits())),
    };
    let encoded = request.encode().unwrap();
    assert_eq!(
        encoded,
        vec![0x93, 0x90, 0xc0, 0xcb, 0x3f, 0xe0, 0, 0, 0, 0, 0, 0]
    );
    assert_eq!(MessageGetRequest::decode(&encoded).unwrap(), request);
}

#[test]
fn metadata_must_be_whole_values() {
    let announce = PropagationNodeAnnounce {
        legacy_support: false,
        timebase: 1,
        enabled: true,
        transfer_limit_kb: 1,
        sync_limit_kb: 1,
        stamp_cost: 1,
        stamp_cost_flexibility: 1,
        peering_cost: 1,
        metadata: vec![(1, vec![0xc0, 0xc0])],
    };
    assert_eq!(announce.encode(), Err(PropagationError::TrailingData));
    let copy = PropagationNodeAnnounce {
        metadata: vec![(1, vec![0xc0])],
        ..announce
    };
    assert_eq!(copy.duplicate(), copy);
}

#[test]
fn a_purged_number_is_not_given_out_again() {
    let mut store = MemoryPropagationStore::new(1024);
    let mut highest = 0;
    for round in 0..4u8 {
        store.append(&[round; 32], 1, 0, &[round; 60]).unwrap();
        let newest = store.newest_sequence().unwrap();
        assert!(newest > highest);
        highest = newest;
        assert!(store.purge(&[round; 32]).unwrap());
        assert_eq!(store.newest_sequence().unwrap(), 0);
    }
    // A refused append takes no number.
    assert!(store.append(&[9; 32], 1, 0, &[9; 2000]).is_err());
    store.append(&[9; 32], 1, 0, &[9; 60]).unwrap();
    assert_eq!(store.newest_sequence().unwrap(), highest + 1);
}
