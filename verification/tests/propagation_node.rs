//! The propagation-node role over the in-memory store.
use leviculum_lxmf::constants::{DESTINATION_LENGTH, LXMF_OVERHEAD, STAMP_SIZE};
use leviculum_lxmf::ieee;
use leviculum_lxmf::msgpack;
use leviculum_lxmf::propagation_node::SourceError;
use leviculum_lxmf::serve_cost::{
    serve_buffered_peak_bytes, serve_cap_for_peak, serve_peak_bytes, RESPONSE_FRAME_BYTES,
};
use leviculum_lxmf::{
    EvictionReason, GetError, GetOutcome, MemoryPropagationStore, MessageGetRequest,
    MessageGetResponse, MessageListResponse, PropagationError, PropagationNode,
    PropagationNodeAnnounce, PropagationNodeConfig, PropagationSignal, PropagationStore,
    PropagationUpload, TransferLimit, TransientId, UploadOutcome,
};
use sha2::Digest;

fn full_hash(data: &[u8]) -> [u8; 32] {
    sha2::Sha256::digest(data).into()
}

const DAY: u64 = 24 * 60 * 60;

fn node(capacity: u64) -> PropagationNode<MemoryPropagationStore> {
    PropagationNode::new(
        MemoryPropagationStore::new(capacity),
        PropagationNodeConfig::default(),
    )
}

fn envelope(destination: u8, seed: u8) -> Vec<u8> {
    envelope_sized(destination, seed, 120)
}

fn envelope_sized(destination: u8, seed: u8, lxmf_len: usize) -> Vec<u8> {
    assert!(lxmf_len > LXMF_OVERHEAD);
    let mut lxmf_data = vec![destination; DESTINATION_LENGTH];
    lxmf_data.resize(lxmf_len, seed);
    PropagationUpload::single(1_700_000_000.0f64.to_bits(), lxmf_data, [0xEE; STAMP_SIZE]).encode()
}

fn no_validation(_: &TransientId, _: &[u8; STAMP_SIZE]) -> Option<u16> {
    panic!("stamp validation must not run at cost 0");
}

fn accepted_id(outcome: &UploadOutcome) -> TransientId {
    match outcome {
        UploadOutcome::Accepted { transient_id, .. } => *transient_id,
        other => panic!("expected acceptance, got {other:?}"),
    }
}

#[test]
fn an_upload_is_stored_and_a_repeat_is_a_proven_duplicate() {
    let mut node = node(64 * 1024);
    let bytes = envelope(7, 1);

    let first = node.handle_upload(&bytes, 100, no_validation);
    let transient_id = accepted_id(&first);
    match &first {
        UploadOutcome::Accepted {
            destination_hash,
            duplicate,
            stamp_value,
            ..
        } => {
            assert_eq!(destination_hash, &[7u8; DESTINATION_LENGTH]);
            assert!(!duplicate);
            assert_eq!(*stamp_value, 0);
        }
        other => panic!("{other:?}"),
    }
    assert!(node.store().contains(&transient_id).unwrap());

    let stored = node.store().read_body(&transient_id).unwrap().unwrap();
    assert_eq!(
        full_hash(&stored[..stored.len() - STAMP_SIZE]),
        transient_id
    );

    let again = node.handle_upload(&bytes, 200, no_validation);
    match again {
        UploadOutcome::Accepted { duplicate, .. } => assert!(duplicate),
        other => panic!("{other:?}"),
    }
    assert_eq!(node.store().len(), 1);
}

#[test]
fn a_multi_message_transfer_is_the_peer_sync_form() {
    let mut node = node(64 * 1024);
    let mut bytes = Vec::new();
    msgpack::array(&mut bytes, 2);
    msgpack::double(&mut bytes, 0);
    msgpack::array(&mut bytes, 2);
    msgpack::bin(&mut bytes, &[0u8; 160]);
    msgpack::bin(&mut bytes, &[1u8; 160]);
    assert_eq!(
        node.handle_upload(&bytes, 0, no_validation),
        UploadOutcome::PeerSyncForm
    );
}

#[test]
fn a_stamp_below_the_cost_is_rejected_with_the_python_signal() {
    let mut node = PropagationNode::new(
        MemoryPropagationStore::new(64 * 1024),
        PropagationNodeConfig {
            stamp_cost: 8,
            stamp_cost_flexibility: 3,
            ..PropagationNodeConfig::default()
        },
    );
    assert_eq!(node.min_accepted_cost(), 5);

    let outcome = node.handle_upload(&envelope(7, 1), 0, |_, _| None);
    match outcome {
        UploadOutcome::InvalidStamp { reject } => {
            assert_eq!(
                PropagationSignal::decode(&reject).unwrap(),
                PropagationSignal::InvalidStamp
            );
        }
        other => panic!("{other:?}"),
    }
    assert!(node.store().is_empty());

    let outcome = node.handle_upload(&envelope(7, 2), 0, |_, _| Some(6));
    match outcome {
        UploadOutcome::Accepted { stamp_value, .. } => assert_eq!(stamp_value, 6),
        other => panic!("{other:?}"),
    }
}

#[test]
fn get_list_returns_only_the_callers_mailbox_smallest_first() {
    let mut node = node(64 * 1024);
    let big = accepted_id(&node.handle_upload(&envelope_sized(7, 1, 300), 0, no_validation));
    let small = accepted_id(&node.handle_upload(&envelope_sized(7, 2, 120), 0, no_validation));
    let _other = node.handle_upload(&envelope(9, 3), 0, no_validation);

    let outcome = node
        .handle_get(
            &MessageGetRequest::list().encode().unwrap(),
            &[7; DESTINATION_LENGTH],
            0,
        )
        .unwrap();
    match outcome {
        GetOutcome::List { response, count } => {
            assert_eq!(count, 2);
            match MessageListResponse::decode(&response).unwrap() {
                MessageListResponse::TransientIds(ids) => assert_eq!(ids, vec![small, big]),
                other => panic!("{other:?}"),
            }
        }
        other => panic!("{other:?}"),
    }
}

#[test]
fn fetch_serves_unstamped_bodies_and_deletes_only_on_confirmation() {
    let mut node = node(64 * 1024);
    let bytes = envelope(7, 1);
    let transient_id = accepted_id(&node.handle_upload(&bytes, 0, no_validation));
    let stored = node.store().read_body(&transient_id).unwrap().unwrap();

    let fetch = MessageGetRequest {
        wants: Some(vec![transient_id]),
        haves: None,
        transfer_limit_kb: Some(TransferLimit::Integer(1000)),
    };
    let outcome = node
        .handle_get(&fetch.encode().unwrap(), &[7; DESTINATION_LENGTH], 0)
        .unwrap();
    match outcome {
        GetOutcome::Fetch { plan, purged } => {
            assert_eq!(plan.served_ids(), vec![transient_id]);
            assert!(purged.is_empty());
            let response = node.encode_fetch(&plan).unwrap();
            assert_eq!(response.len(), plan.encoded_len());
            match MessageGetResponse::decode(&response).unwrap() {
                MessageGetResponse::Messages(bodies) => {
                    assert_eq!(bodies, vec![stored[..stored.len() - STAMP_SIZE].to_vec()]);
                }
                other => panic!("{other:?}"),
            }
        }
        other => panic!("{other:?}"),
    }
    assert!(node.store().contains(&transient_id).unwrap());

    let acknowledge = MessageGetRequest::acknowledge(vec![transient_id]);
    let outcome = node
        .handle_get(&acknowledge.encode().unwrap(), &[7; DESTINATION_LENGTH], 0)
        .unwrap();
    match outcome {
        GetOutcome::Fetch { plan, purged } => {
            assert!(plan.is_empty());
            assert_eq!(purged, vec![transient_id]);
        }
        other => panic!("{other:?}"),
    }
    assert!(node.store().is_empty());

    match node.handle_upload(&bytes, 10, no_validation) {
        UploadOutcome::Accepted { duplicate, .. } => assert!(duplicate),
        other => panic!("{other:?}"),
    }
    assert!(node.store().is_empty());
}

#[test]
fn a_stranger_cannot_fetch_or_purge_someone_elses_mail() {
    let mut node = node(64 * 1024);
    let transient_id = accepted_id(&node.handle_upload(&envelope(7, 1), 0, no_validation));

    let steal = MessageGetRequest {
        wants: Some(vec![transient_id]),
        haves: Some(vec![transient_id]),
        transfer_limit_kb: None,
    };
    let outcome = node
        .handle_get(&steal.encode().unwrap(), &[9; DESTINATION_LENGTH], 0)
        .unwrap();
    match outcome {
        GetOutcome::Fetch { plan, purged } => {
            assert!(plan.is_empty(), "wrong mailbox must not be served");
            assert!(purged.is_empty(), "wrong mailbox must not purge");
        }
        other => panic!("{other:?}"),
    }
    assert!(node.store().contains(&transient_id).unwrap());
}

#[test]
fn the_transfer_limit_bounds_one_response_and_skips_rather_than_stops() {
    let mut node = node(64 * 1024);
    let big = accepted_id(&node.handle_upload(&envelope_sized(7, 1, 1000), 0, no_validation));
    let small = accepted_id(&node.handle_upload(&envelope_sized(7, 2, 120), 0, no_validation));

    let fetch = MessageGetRequest {
        wants: Some(vec![big, small]),
        haves: None,
        transfer_limit_kb: Some(TransferLimit::Integer(1)),
    };
    let outcome = node
        .handle_get(&fetch.encode().unwrap(), &[7; DESTINATION_LENGTH], 0)
        .unwrap();
    match outcome {
        GetOutcome::Fetch { plan, .. } => assert_eq!(plan.served_ids(), vec![small]),
        other => panic!("{other:?}"),
    }
}

#[test]
fn expiry_purges_only_what_is_older_than_thirty_days() {
    let mut node = node(64 * 1024);
    let old = accepted_id(&node.handle_upload(&envelope(7, 1), 0, no_validation));
    let fresh = accepted_id(&node.handle_upload(&envelope(7, 2), 20 * DAY, no_validation));

    let evicted = node.tick(31 * DAY);
    assert_eq!(evicted.len(), 1);
    assert_eq!(evicted[0].transient_id, old);
    assert_eq!(evicted[0].reason, EvictionReason::Expired);
    assert!(!node.store().contains(&old).unwrap());
    assert!(node.store().contains(&fresh).unwrap());
}

#[test]
fn a_full_store_displaces_by_age_times_size() {
    let mut node = node(340);
    let oldest = accepted_id(&node.handle_upload(&envelope(7, 1), 0, no_validation));
    let newer = accepted_id(&node.handle_upload(&envelope(7, 2), 9 * DAY, no_validation));

    let outcome = node.handle_upload(&envelope(7, 3), 10 * DAY, no_validation);
    match &outcome {
        UploadOutcome::Accepted {
            duplicate, evicted, ..
        } => {
            assert!(!duplicate);
            assert_eq!(evicted.len(), 1);
            assert_eq!(evicted[0].transient_id, oldest);
            assert_eq!(evicted[0].reason, EvictionReason::Displaced);
        }
        other => panic!("{other:?}"),
    }
    assert!(!node.store().contains(&oldest).unwrap());
    assert!(node.store().contains(&newer).unwrap());
    assert!(node.store().contains(&accepted_id(&outcome)).unwrap());
}

#[test]
fn the_resource_gate_follows_the_announced_sync_limit() {
    let node = node(64 * 1024);
    assert!(node.accepts_resource_of(32_000));
    assert!(!node.accepts_resource_of(32_001));
}

#[test]
fn announce_defaults_are_the_concept_papers_numbers() {
    let node = node(64 * 1024);
    let announce = PropagationNodeAnnounce::decode(&node.announce_app_data(1_700_000_000)).unwrap();
    assert!(!announce.legacy_support);
    assert!(announce.enabled);
    assert_eq!(announce.timebase, 1_700_000_000);
    assert_eq!(announce.transfer_limit_kb, 4);
    assert_eq!(announce.sync_limit_kb, 32);
    assert_eq!(announce.stamp_cost, 0);
    assert_eq!(announce.stamp_cost_flexibility, 3);
    assert_eq!(announce.peering_cost, 0);
    assert!(announce.metadata.is_empty());
}

#[test]
fn a_forgotten_id_is_accepted_again_as_new() {
    let mut node = node(64 * 1024);
    let bytes = envelope(7, 1);
    let transient_id = accepted_id(&node.handle_upload(&bytes, 100, no_validation));

    assert!(node.store_mut().purge(&transient_id).unwrap());
    node.forget_processed(&transient_id);

    match node.handle_upload(&bytes, 101, no_validation) {
        UploadOutcome::Accepted { duplicate, .. } => assert!(!duplicate),
        other => panic!("expected acceptance, got {other:?}"),
    }
}

#[test]
fn a_time_seed_does_not_mass_expire_uptime_era_records() {
    let floor = 1_790_000_000u64;
    let mut seeded = node(64 * 1024);
    let early = accepted_id(&seeded.handle_upload(&envelope(7, 1), floor + 300, no_validation));
    seeded.note_calendar_jump(floor + 300);
    let old = accepted_id(&seeded.handle_upload(&envelope(7, 2), floor + 365 * DAY, no_validation));

    let now = floor + 365 * DAY + 40 * DAY;
    let evicted = seeded.tick(now);
    assert_eq!(evicted.len(), 1, "only the post-jump record expires");
    assert_eq!(evicted[0].transient_id, old);
    assert!(seeded.store().contains(&early).unwrap());

    let mut clockless = node(64 * 1024);
    let stored = accepted_id(&clockless.handle_upload(&envelope(7, 3), floor, no_validation));
    let evicted = clockless.tick(floor + 31 * DAY);
    assert_eq!(evicted.len(), 1);
    assert_eq!(evicted[0].transient_id, stored);
}

const BOARD_RESOURCE_SDU: usize = 500 - 36;

#[test]
fn the_field_fetch_frames_the_allocation_that_killed_the_board() {
    let mut node = PropagationNode::new(
        MemoryPropagationStore::new(64 * 1024),
        PropagationNodeConfig {
            sync_limit_kb: 8,
            ..PropagationNodeConfig::default()
        },
    );
    let wants: Vec<TransientId> = (0..24)
        .map(|seed| {
            accepted_id(&node.handle_upload(&envelope_sized(7, seed, 224), 0, no_validation))
        })
        .collect();

    let fetch = MessageGetRequest {
        wants: Some(wants.clone()),
        haves: None,
        transfer_limit_kb: Some(TransferLimit::Integer(1000)),
    };
    let outcome = node
        .handle_get(&fetch.encode().unwrap(), &[7; DESTINATION_LENGTH], 0)
        .unwrap();
    let GetOutcome::Fetch { plan, .. } = outcome else {
        panic!("a fetch request must produce a fetch outcome");
    };
    let response = node.encode_fetch(&plan).unwrap();

    assert_eq!(plan.count(), 24, "all 24 must pass the 8 KB cap");
    assert_eq!(plan.served_bytes(), 5376);
    assert_eq!(response.len(), 5427, "the encoded MessageGetResponse");
    assert_eq!(
        plan.encoded_len(),
        response.len(),
        "the plan must predict the encoded length before it is built"
    );
    assert_eq!(
        response.len() + RESPONSE_FRAME_BYTES,
        5446,
        "the response with its frame"
    );
}

#[test]
fn the_encoded_response_never_outgrows_the_accounted_cap() {
    for sync_limit_kb in [1u64, 2, 4, 8, 32] {
        let mut node = PropagationNode::new(
            MemoryPropagationStore::new(256 * 1024),
            PropagationNodeConfig {
                sync_limit_kb,
                ..PropagationNodeConfig::default()
            },
        );
        let smallest = LXMF_OVERHEAD + 1;
        let wants: Vec<TransientId> = (0..u8::MAX)
            .map(|seed| {
                accepted_id(&node.handle_upload(
                    &envelope_sized(7, seed, smallest),
                    0,
                    no_validation,
                ))
            })
            .collect();
        let fetch = MessageGetRequest {
            wants: Some(wants),
            haves: None,
            transfer_limit_kb: Some(TransferLimit::Integer(100_000)),
        };
        let GetOutcome::Fetch { plan, .. } = node
            .handle_get(&fetch.encode().unwrap(), &[7; DESTINATION_LENGTH], 0)
            .unwrap()
        else {
            panic!("a fetch request must produce a fetch outcome");
        };
        let response = node.encode_fetch(&plan).unwrap();
        assert_eq!(plan.encoded_len(), response.len());
        let cap = (sync_limit_kb * 1000) as usize;
        assert!(
            response.len() <= cap,
            "sync_limit_kb={sync_limit_kb}: encoded {} > cap {cap}",
            response.len()
        );
    }
}

#[test]
fn a_streamed_eight_kilobyte_serve_cap_costs_twice_its_size_not_six_times() {
    let peak = serve_peak_bytes(8_000, BOARD_RESOURCE_SDU);
    assert_eq!(peak, 17_264);
    assert!(
        peak < 3 * 8_000,
        "a streamed serve must cost less than three times the cap that bounds it"
    );

    let buffered = serve_buffered_peak_bytes(8_000, BOARD_RESOURCE_SDU);
    assert_eq!(buffered, 48_922);
    assert!(
        peak * 2 < buffered,
        "streaming must more than halve the transient: {peak} against {buffered}"
    );
}

#[test]
fn the_funded_cap_is_the_inverse_of_the_peak() {
    for budget in [0usize, 880, 5_000, 20_000, 17_264, 48_922, 200_000] {
        let cap = serve_cap_for_peak(budget, BOARD_RESOURCE_SDU);
        assert!(
            serve_peak_bytes(cap, BOARD_RESOURCE_SDU) <= budget || cap == 0,
            "budget {budget}: cap {cap} does not fit"
        );
        assert!(
            serve_peak_bytes(cap + 1, BOARD_RESOURCE_SDU) > budget,
            "budget {budget}: cap {cap} is not the largest that fits"
        );
    }
}

#[test]
fn todays_slack_funds_no_field_message() {
    let cap = serve_cap_for_peak(784, BOARD_RESOURCE_SDU);
    assert_eq!(
        cap, 216,
        "the T114's own boot slack must fund the cap its boot line prints"
    );
    assert!(
        cap < 24 + 224 + STAMP_SIZE + 16,
        "784 B of slack must not be read as affording a field-sized serve (got {cap})"
    );
    assert!(serve_peak_bytes(cap, BOARD_RESOURCE_SDU) <= 784);
    assert!(serve_peak_bytes(cap + 1, BOARD_RESOURCE_SDU) > 784);
}

#[test]
fn a_funded_cap_serves_a_subset_and_keeps_the_rest() {
    let cap = 24 + 3 * (160 + STAMP_SIZE + 16);
    let mut node = PropagationNode::new(
        MemoryPropagationStore::new(64 * 1024),
        PropagationNodeConfig {
            sync_limit_kb: 8,
            serve_cap_bytes: Some(cap),
            ..PropagationNodeConfig::default()
        },
    );
    let wants: Vec<TransientId> = (0..8u8)
        .map(|seed| {
            accepted_id(&node.handle_upload(&envelope_sized(7, seed, 160), 0, no_validation))
        })
        .collect();

    let fetch = MessageGetRequest {
        wants: Some(wants.clone()),
        haves: None,
        transfer_limit_kb: Some(TransferLimit::Integer(100_000)),
    };
    let GetOutcome::Fetch { plan, purged } = node
        .handle_get(&fetch.encode().unwrap(), &[7; DESTINATION_LENGTH], 0)
        .unwrap()
    else {
        panic!("a fetch request must produce a fetch outcome");
    };
    let served = plan.served_ids();

    assert_eq!(served.len(), 3, "the cap funds three of the eight");
    assert!(plan.encoded_len() <= cap, "the response must fit the cap");
    assert!(purged.is_empty(), "a fetch purges nothing by itself");
    assert_eq!(node.store().len(), 8, "the five unserved are still stored");

    let rest: Vec<TransientId> = wants
        .iter()
        .copied()
        .filter(|id| !served.contains(id))
        .collect();
    let second = MessageGetRequest {
        wants: Some(rest),
        haves: None,
        transfer_limit_kb: Some(TransferLimit::Integer(100_000)),
    };
    let GetOutcome::Fetch { plan, .. } = node
        .handle_get(&second.encode().unwrap(), &[7; DESTINATION_LENGTH], 0)
        .unwrap()
    else {
        panic!("a fetch request must produce a fetch outcome");
    };
    let served_two = plan.served_ids();
    assert_eq!(served_two.len(), 3, "the next round serves the next three");
    assert!(
        served_two.iter().all(|id| !served.contains(id)),
        "no message is served twice"
    );
}

#[test]
fn a_streamed_fetch_is_the_encoded_fetch() {

    for (count, body) in [
        (1usize, 120usize),
        (5, 300),
        (16, 113),
        (20, 255),
        (20, 256),
    ] {
        let mut node = PropagationNode::new(
            MemoryPropagationStore::new(256 * 1024),
            PropagationNodeConfig {
                sync_limit_kb: 64,
                ..PropagationNodeConfig::default()
            },
        );
        let wants: Vec<TransientId> = (0..count as u8)
            .map(|seed| {
                accepted_id(&node.handle_upload(&envelope_sized(7, seed, body), 0, no_validation))
            })
            .collect();
        let fetch = MessageGetRequest {
            wants: Some(wants),
            haves: None,
            transfer_limit_kb: Some(TransferLimit::Integer(100_000)),
        };
        let GetOutcome::Fetch { plan, .. } = node
            .handle_get(&fetch.encode().unwrap(), &[7; DESTINATION_LENGTH], 0)
            .unwrap()
        else {
            panic!("a fetch request must produce a fetch outcome");
        };
        assert_eq!(plan.count(), count, "the whole mailbox must fit the cap");

        let encoded = node.encode_fetch(&plan).unwrap();
        assert_eq!(
            plan.encoded_len(),
            encoded.len(),
            "the plan's length must be the encoded length ({count} x {body} B)"
        );

        for chunk in [1usize, 7, 64, 464, 4096] {
            let mut source = node.fetch_source(&plan);
            assert_eq!(source.total_len(), encoded.len());
            let mut streamed = Vec::new();
            let mut buf = vec![0u8; chunk];
            loop {
                let read = source.read(&mut buf).unwrap();
                if read == 0 {
                    break;
                }
                streamed.extend_from_slice(&buf[..read]);
            }
            assert_eq!(
                streamed, encoded,
                "streamed fetch differs from the encoded one \
                 ({count} x {body} B, reads of {chunk})"
            );
            source.rewind().unwrap();
            let mut second = Vec::new();
            loop {
                let read = source.read(&mut buf).unwrap();
                if read == 0 {
                    break;
                }
                second.extend_from_slice(&buf[..read]);
            }
            assert_eq!(second, encoded, "the second pass must repeat the first");
        }
    }
}

#[test]
fn a_record_purged_under_a_plan_fails_the_stream() {

    let mut node = node(64 * 1024);
    let wants: Vec<TransientId> = (0..3u8)
        .map(|seed| accepted_id(&node.handle_upload(&envelope(7, seed), 0, no_validation)))
        .collect();
    let fetch = MessageGetRequest {
        wants: Some(wants.clone()),
        haves: None,
        transfer_limit_kb: Some(TransferLimit::Integer(100_000)),
    };
    let GetOutcome::Fetch { plan, .. } = node
        .handle_get(&fetch.encode().unwrap(), &[7; DESTINATION_LENGTH], 0)
        .unwrap()
    else {
        panic!("a fetch request must produce a fetch outcome");
    };
    assert_eq!(plan.count(), 3);

    node.store_mut().purge(&wants[1]).unwrap();

    let mut source = node.fetch_source(&plan);
    let mut buf = vec![0u8; 64];
    let error = loop {
        match source.read(&mut buf) {
            Ok(0) => panic!("a stream over a purged record must not reach the end"),
            Ok(_) => continue,
            Err(error) => break error,
        }
    };
    assert_eq!(error, SourceError::Unavailable);
}

#[test]
fn a_cap_below_one_message_serves_nothing_and_loses_nothing() {
    let mut node = PropagationNode::new(
        MemoryPropagationStore::new(64 * 1024),
        PropagationNodeConfig {
            sync_limit_kb: 8,
            serve_cap_bytes: Some(88),
            ..PropagationNodeConfig::default()
        },
    );
    let wants: Vec<TransientId> = (0..4u8)
        .map(|seed| accepted_id(&node.handle_upload(&envelope(7, seed), 0, no_validation)))
        .collect();

    let fetch = MessageGetRequest {
        wants: Some(wants),
        haves: None,
        transfer_limit_kb: Some(TransferLimit::Integer(100_000)),
    };
    let GetOutcome::Fetch { plan, purged } = node
        .handle_get(&fetch.encode().unwrap(), &[7; DESTINATION_LENGTH], 0)
        .unwrap()
    else {
        panic!("a fetch request must produce a fetch outcome");
    };
    let response = node.encode_fetch(&plan).unwrap();
    assert!(plan.is_empty(), "88 B funds no message");
    assert_eq!(plan.served_bytes(), 0);
    assert!(purged.is_empty());
    assert_eq!(node.store().len(), 4, "nothing served is nothing lost");
    assert!(
        matches!(
            MessageGetResponse::decode(&response),
            Ok(MessageGetResponse::Messages(ref m)) if m.is_empty()
        ),
        "the short answer must still be a valid MessageGetResponse"
    );
    let list = MessageGetRequest {
        wants: None,
        haves: None,
        transfer_limit_kb: None,
    };
    let GetOutcome::List { count, .. } = node
        .handle_get(&list.encode().unwrap(), &[7; DESTINATION_LENGTH], 0)
        .unwrap()
    else {
        panic!("an empty request is the list form");
    };
    assert_eq!(count, 4, "the node still offers what it cannot yet serve");
}

#[test]
fn malformed_requests_and_uploads_are_refused() {
    let mut node = node(64 * 1024);
    assert_eq!(
        node.handle_get(&[0x92, 0xc0, 0xc0, 0x00], &[7; DESTINATION_LENGTH], 0),
        Err(GetError::Request(PropagationError::TrailingData))
    );
    assert_eq!(
        node.handle_upload(&[0x91], 0, no_validation),
        UploadOutcome::Malformed(PropagationError::InvalidLength)
    );
    assert_eq!(
        node.accept_stamped(&[0; LXMF_OVERHEAD + STAMP_SIZE], 0, no_validation),
        UploadOutcome::Malformed(PropagationError::InvalidLength)
    );
    let error = GetError::Request(PropagationError::Truncated);
    assert_eq!(error.message(), "get request: truncated propagation data");
}

#[test]
fn a_message_that_cannot_fit_is_refused_by_the_store() {
    let mut node = node(100);
    assert!(matches!(
        node.handle_upload(&envelope(7, 1), 0, no_validation),
        UploadOutcome::StoreFailed(_)
    ));
    assert!(node.store().is_empty());
}

#[test]
fn a_named_node_announces_its_name() {
    let node = PropagationNode::new(
        MemoryPropagationStore::new(64 * 1024),
        PropagationNodeConfig {
            name: Some(b"mail".to_vec()),
            ..PropagationNodeConfig::default()
        },
    );
    let announce = PropagationNodeAnnounce::decode(&node.announce_app_data(5)).unwrap();
    assert_eq!(
        announce.metadata,
        vec![(1, vec![0xc4, 4, b'm', b'a', b'i', b'l'])]
    );
}

/// The place of a positive double among the numbers of 53 significant bits, in
/// units of the last place of one.
fn place_of(weight: f64) -> u128 {
    let bits = weight.to_bits();
    let exponent = u128::from(bits >> 52) + 52 - 1023;
    let significand = u128::from(bits & 0xf_ffff_ffff_ffff) | 0x10_0000_0000_0000;
    exponent * 0x20_0000_0000_0000 + significand
}

#[test]
fn eviction_weights_are_those_of_double_arithmetic() {
    let mut ages = vec![0, 1, 345_599, 345_600, 345_601, 1_000_003, u64::MAX, u64::MAX - 1_023];
    let mut age: u64 = 7;
    for _ in 0..300 {
        age = age.wrapping_mul(6_364_136_223_846_793_005).wrapping_add(1_442_695_040_888_963_407);
        ages.push(age >> (age % 50));
    }
    for (i, age) in ages.iter().enumerate() {
        let size = [1, 3, 17, 1_000, 65_537, u32::MAX, 0x8000_0001][i % 7];
        let spans = (*age as f64 / 345_600.0).max(1.0);
        let rounded = ieee::rounded_int(*age);
        assert_eq!(rounded, (*age as f64) as u128);
        let (significand, exponent) = if rounded <= 345_600 {
            (ieee::FRACTION, 0)
        } else {
            ieee::divide(rounded, 345_600)
        };
        assert_eq!(
            ieee::product_place(significand, exponent, size),
            place_of(spans * f64::from(size)),
            "age {age}, size {size}"
        );
    }
    assert_eq!(ieee::product_place(ieee::FRACTION, 0, 0), 0);
}
