//! The peer table, the offer exchange and the inbound gate.
use leviculum_lxmf::msgpack;
use leviculum_lxmf::peering::{
    offer_budget_for_mdu, offer_encoded_len, MAX_UNREACHABLE_SECS, OFFER_BASE_SIZE,
    OFFER_BYTES_LIMIT, OFFER_KEY_BYTES, OFFER_PER_MESSAGE_OVERHEAD, OFFER_PROBE_BUDGET,
    PN_STAMP_THROTTLE_SECS, REQUEST_ENVELOPE_BYTES, SYNC_BACKOFF_STEP_SECS, SYNC_INTERVAL_SECS,
};
use leviculum_lxmf::{
    answer_offer, build_offer, peering_key_material, response_action, DeclineReason, DropReason,
    InboundGate, MemoryPeerStore, OfferPlan, OfferResponse, Peer, PeerChange, PeerError, PeerOffer,
    PeerRecord, PeerStore, PeerSyncEnvelope, PeerTable, PeeringConfig, PropagationError,
    PropagationNodeAnnounce, ResponseAction, StoredMessage, SyncPhase, TransientId,
};

fn announce(timebase: u64) -> PropagationNodeAnnounce {
    PropagationNodeAnnounce {
        legacy_support: false,
        timebase,
        enabled: true,
        transfer_limit_kb: 4,
        sync_limit_kb: 32,
        stamp_cost: 16,
        stamp_cost_flexibility: 3,
        peering_cost: 18,
        metadata: vec![],
    }
}

fn table() -> PeerTable {
    PeerTable::new(PeeringConfig::default())
}

fn entry(sequence: u64, size: u32, stamp_value: u8) -> StoredMessage {
    StoredMessage {
        transient_id: {
            let mut id = [0u8; 32];
            id[..8].copy_from_slice(&sequence.to_be_bytes());
            id
        },
        destination_hash: [7; 16],
        size,
        received_at: 1000 + sequence,
        stamp_value,
        sequence,
    }
}

fn peer_at(cursor: u64) -> Peer {
    let mut peer = Peer::from_announce([1; 16], &announce(1), false, 0);
    peer.cursor = cursor;
    peer
}

#[test]
fn an_announce_inside_the_depth_creates_a_peer_and_a_newer_one_updates_it() {
    let mut table = table();
    assert_eq!(
        table.handle_announce([1; 16], &announce(100), Some(2), 50, false),
        PeerChange::Added
    );
    let mut cheaper = announce(100);
    cheaper.peering_cost = 3;
    assert_eq!(
        table.handle_announce([1; 16], &cheaper, Some(2), 60, false),
        PeerChange::Updated
    );
    assert_eq!(table.get(&[1; 16]).unwrap().peering_cost, 18);
    let mut newer = announce(101);
    newer.peering_cost = 3;
    assert_eq!(
        table.handle_announce([1; 16], &newer, Some(2), 70, false),
        PeerChange::Updated
    );
    assert_eq!(table.get(&[1; 16]).unwrap().peering_cost, 3);
    assert_eq!(table.get(&[1; 16]).unwrap().last_heard, 70);
}

#[test]
fn the_cap_declines_new_peers_first_heard_wins() {
    let mut table = PeerTable::new(PeeringConfig {
        max_peers: 2,
        ..PeeringConfig::default()
    });
    assert_eq!(
        table.handle_announce([1; 16], &announce(1), Some(1), 0, false),
        PeerChange::Added
    );
    assert_eq!(
        table.handle_announce([2; 16], &announce(1), Some(1), 0, false),
        PeerChange::Added
    );
    assert_eq!(
        table.handle_announce([3; 16], &announce(1), Some(1), 0, false),
        PeerChange::Declined(DeclineReason::TableFull)
    );
    assert_eq!(table.len(), 2);
    assert!(table.remove(&[1; 16]));
    assert_eq!(
        table.handle_announce([3; 16], &announce(2), Some(1), 5, false),
        PeerChange::Added
    );
}

#[test]
fn a_static_peer_bypasses_the_cap_and_the_depth_and_survives_the_cull() {
    let mut table = PeerTable::new(PeeringConfig {
        max_peers: 1,
        static_peers: vec![[9; 16]],
        ..PeeringConfig::default()
    });
    assert_eq!(
        table.handle_announce([1; 16], &announce(1), Some(1), 0, false),
        PeerChange::Added
    );
    assert_eq!(
        table.handle_announce([9; 16], &announce(1), Some(9), 0, false),
        PeerChange::Added
    );
    let dropped = table.cull(MAX_UNREACHABLE_SECS + 10);
    assert_eq!(dropped, vec![[1; 16]]);
    assert!(table.get(&[9; 16]).is_some());
}

#[test]
fn out_of_depth_and_disabled_and_costly_announces_break_or_decline() {
    let mut table = table();
    assert_eq!(
        table.handle_announce([1; 16], &announce(1), Some(5), 0, false),
        PeerChange::Declined(DeclineReason::TooDeep)
    );
    table.handle_announce([1; 16], &announce(1), Some(4), 0, false);
    assert_eq!(
        table.handle_announce([1; 16], &announce(2), Some(5), 1, false),
        PeerChange::Dropped(DropReason::OutOfDepth)
    );

    let mut disabled = announce(3);
    disabled.enabled = false;
    table.handle_announce([2; 16], &announce(1), Some(1), 0, false);
    assert_eq!(
        table.handle_announce([2; 16], &disabled, Some(1), 1, false),
        PeerChange::Dropped(DropReason::Disabled)
    );

    let mut costly = announce(4);
    costly.peering_cost = 27;
    assert_eq!(
        table.handle_announce([3; 16], &costly, Some(1), 0, false),
        PeerChange::Declined(DeclineReason::CostTooHigh)
    );
    table.handle_announce([3; 16], &announce(4), Some(1), 0, false);
    assert_eq!(
        table.handle_announce([3; 16], &costly, Some(1), 1, false),
        PeerChange::Dropped(DropReason::CostRaised)
    );
}

#[test]
fn an_inbound_sync_peers_the_sender_off_its_recalled_announce() {
    let mut table = table();
    assert_eq!(
        table.handle_inbound_sync([1; 16], &announce(100), Some(1), 50),
        PeerChange::Added
    );
    assert!(table.get(&[1; 16]).is_some());
}

#[test]
fn a_peer_from_a_sync_and_a_peer_from_an_announce_are_the_same_record() {
    let mut from_sync = table();
    let mut from_announce = table();
    assert_eq!(
        from_sync.handle_inbound_sync([1; 16], &announce(100), Some(1), 50),
        PeerChange::Added
    );
    assert_eq!(
        from_announce.handle_announce([1; 16], &announce(100), Some(1), 50, false),
        PeerChange::Added
    );
    assert_eq!(
        from_sync.get(&[1; 16]),
        from_announce.get(&[1; 16]),
        "a peer discovered by sync must carry every field one discovered by \
         announce carries"
    );
}

#[test]
fn an_inbound_sync_from_a_non_node_or_out_of_depth_sender_peers_nobody() {
    let mut table = PeerTable::new(PeeringConfig {
        autopeer_maxdepth: 1,
        ..PeeringConfig::default()
    });

    let mut disabled = announce(100);
    disabled.enabled = false;
    assert_eq!(
        table.handle_inbound_sync([1; 16], &disabled, Some(1), 50),
        PeerChange::Declined(DeclineReason::Disabled)
    );
    assert_eq!(
        table.handle_inbound_sync([2; 16], &announce(100), Some(2), 50),
        PeerChange::Declined(DeclineReason::TooDeep)
    );
    assert_eq!(
        table.handle_inbound_sync([3; 16], &announce(100), None, 50),
        PeerChange::Declined(DeclineReason::TooDeep)
    );
    let mut costly = announce(100);
    costly.peering_cost = 27;
    assert_eq!(
        table.handle_inbound_sync([4; 16], &costly, Some(1), 50),
        PeerChange::Declined(DeclineReason::CostTooHigh)
    );

    let mut no_autopeer = PeerTable::new(PeeringConfig {
        autopeer: false,
        ..PeeringConfig::default()
    });
    assert_eq!(
        no_autopeer.handle_inbound_sync([1; 16], &announce(100), Some(1), 50),
        PeerChange::Declined(DeclineReason::AutopeerOff)
    );

    assert_eq!(table.len(), 0);
    assert_eq!(no_autopeer.len(), 0);
}

#[test]
fn a_stale_recalled_announce_never_breaks_a_live_peering() {
    let mut table = PeerTable::new(PeeringConfig {
        autopeer_maxdepth: 1,
        ..PeeringConfig::default()
    });
    assert_eq!(
        table.handle_announce([1; 16], &announce(100), Some(1), 50, false),
        PeerChange::Added
    );

    let mut disabled = announce(200);
    disabled.enabled = false;
    assert_eq!(
        table.handle_inbound_sync([1; 16], &disabled, Some(9), 60),
        PeerChange::Declined(DeclineReason::AlreadyPeered),
        "the sync path does not even look at the gates for a known peer"
    );
    assert!(
        table.get(&[1; 16]).is_some(),
        "a sync must never cost us a peering"
    );
    assert_eq!(
        table.handle_announce([1; 16], &disabled, Some(1), 61, false),
        PeerChange::Dropped(DropReason::Disabled)
    );
}

#[test]
fn a_path_response_announce_creates_no_peer_while_the_same_announce_does() {
    let mut table = table();
    assert_eq!(
        table.handle_announce([1; 16], &announce(100), Some(1), 50, true),
        PeerChange::Declined(DeclineReason::PathResponse),
        "a path response says only that somebody asked where this node is"
    );
    assert_eq!(table.len(), 0, "a path response must peer nobody");

    assert_eq!(
        table.handle_announce([1; 16], &announce(100), Some(1), 50, false),
        PeerChange::Added
    );
    assert_eq!(table.len(), 1);

    let mut disabled = announce(200);
    disabled.enabled = false;
    assert_eq!(
        table.handle_announce([1; 16], &disabled, Some(1), 60, true),
        PeerChange::Declined(DeclineReason::PathResponse)
    );
    assert!(table.get(&[1; 16]).is_some());
}

#[test]
fn a_path_response_fills_in_a_static_peer_never_yet_heard() {
    let mut table = PeerTable::new(PeeringConfig {
        static_peers: vec![[9; 16]],
        ..PeeringConfig::default()
    });
    assert_eq!(
        table.handle_announce([9; 16], &announce(100), Some(1), 50, true),
        PeerChange::Added,
        "the operator configured this peering; the path response only fills \
         in what it could not configure"
    );
    assert_eq!(
        table.handle_announce([9; 16], &announce(200), Some(1), 60, true),
        PeerChange::Declined(DeclineReason::PathResponse)
    );
    assert_eq!(
        table.handle_announce([8; 16], &announce(100), Some(1), 50, true),
        PeerChange::Declined(DeclineReason::PathResponse)
    );
}

#[test]
fn an_inbound_sync_peers_a_sender_we_can_only_recall() {
    let mut table = table();
    let recalled = announce(100)
        .encode()
        .expect("encode the recalled announce");

    assert_eq!(
        table.handle_inbound_sync_recalled([1; 16], Some(&recalled), Some(1), 50),
        PeerChange::Added,
        "a node that synced its store to us, one hop out and with a \
         recallable propagation announce, must be a peer"
    );
    assert_eq!(
        table.handle_inbound_sync_recalled([2; 16], None, Some(1), 50),
        PeerChange::Declined(DeclineReason::NotANode),
        "nothing recalled: a client, which never announces a propagation \
         destination"
    );
    assert_eq!(
        table.handle_inbound_sync_recalled([3; 16], Some(b"not an announce"), Some(1), 50),
        PeerChange::Declined(DeclineReason::NotANode),
        "bytes that do not decode say no more than no bytes at all"
    );
    assert_eq!(table.len(), 1);
}

#[test]
fn peering_key_readiness_follows_the_announced_cost() {
    let mut peer = peer_at(0);
    assert!(!peer.peering_key_ready());
    peer.peering_key = Some(([0xAA; 32], 17));
    assert!(!peer.peering_key_ready());
    assert_eq!(peer.peering_key, None);
    peer.peering_key = Some(([0xAA; 32], 18));
    assert!(peer.peering_key_ready());
    peer.peering_cost = 0;
    peer.peering_key = Some(([0xAA; 32], 0));
    assert!(peer.peering_key_ready());
}

#[test]
fn next_due_walks_hash_order_and_honours_backoff_and_cursor() {
    let mut table = table();
    table.handle_announce([1; 16], &announce(1), Some(1), 0, false);
    table.handle_announce([2; 16], &announce(1), Some(1), 0, false);
    table.handle_announce([3; 16], &announce(1), Some(1), 0, false);
    table.get_mut(&[1; 16]).unwrap().cursor = 5;
    table.get_mut(&[2; 16]).unwrap().next_sync_attempt = 100;

    assert_eq!(table.next_due(50, 5, None), Some([3; 16]));
    assert_eq!(table.next_due(150, 5, Some([3; 16])), Some([2; 16]));
    table.get_mut(&[2; 16]).unwrap().cursor = 5;
    table.get_mut(&[3; 16]).unwrap().cursor = 5;
    assert_eq!(table.next_due(150, 5, None), None);
}

#[test]
fn a_round_whose_link_came_up_is_not_held_for_a_whole_backoff_step() {
    let mut table = table();
    table.handle_announce([1; 16], &announce(1), Some(1), 0, false);
    let now = 100;

    {
        let peer = table.get_mut(&[1; 16]).unwrap();
        peer.sync_backoff_secs += SYNC_BACKOFF_STEP_SECS;
        peer.next_sync_attempt = now + peer.sync_backoff_secs;
        peer.state = SyncPhase::LinkEstablishing;
    }
    assert_eq!(table.next_due(now, 5, None), None);

    {
        let peer = table.get_mut(&[1; 16]).unwrap();
        peer.note_link_established();
        peer.state = SyncPhase::Idle;
        assert_eq!(peer.sync_backoff_secs, 0);
    }
    assert_eq!(
        table.next_due(now + SYNC_INTERVAL_SECS, 5, None),
        Some([1; 16]),
        "a peer that answered our link must be due again on the next sync \
         pass, not after SYNC_BACKOFF_STEP_SECS"
    );

    {
        let peer = table.get_mut(&[1; 16]).unwrap();
        peer.sync_backoff_secs += SYNC_BACKOFF_STEP_SECS;
        peer.next_sync_attempt = now + peer.sync_backoff_secs;
        peer.state = SyncPhase::Idle;
    }
    assert_eq!(table.next_due(now + SYNC_INTERVAL_SECS, 5, None), None);
    assert_eq!(
        table.next_due(now + SYNC_BACKOFF_STEP_SECS, 5, None),
        Some([1; 16])
    );
}

#[test]
fn max_peer_min_cost_drives_the_accept_time_value_policy() {
    let mut table = table();
    assert_eq!(table.max_peer_min_cost(), 0);
    table.handle_announce([1; 16], &announce(1), Some(1), 0, false);
    assert_eq!(table.max_peer_min_cost(), 13);
}

#[test]
fn offer_round_trips_and_matches_the_msgpack_shape_python_unpacks() {
    let offer = PeerOffer {
        peering_key: [0xAB; 32],
        transient_ids: vec![[1; 32], [2; 32]],
    };
    let encoded = offer.encode();
    assert_eq!(encoded[0], 0x92);
    assert_eq!(&encoded[1..3], &[0xC4, 0x20]);
    assert_eq!(encoded[35], 0x92);
    assert_eq!(&encoded[36..38], &[0xC4, 0x20]);
    assert_eq!(encoded.len(), 3 + 32 + 1 + 2 * 34);
    assert_eq!(PeerOffer::decode(&encoded).unwrap(), offer);
}

#[test]
fn offer_responses_round_trip_in_all_four_shapes() {
    for response in [
        OfferResponse::WantNone,
        OfferResponse::WantAll,
        OfferResponse::Wanted(vec![[3; 32]]),
        OfferResponse::Error(PeerError::Throttled),
    ] {
        let encoded = response.encode();
        assert_eq!(OfferResponse::decode(&encoded).unwrap(), response);
    }
    assert_eq!(OfferResponse::WantNone.encode(), vec![0xC2]);
    assert_eq!(OfferResponse::WantAll.encode(), vec![0xC3]);
    assert_eq!(
        OfferResponse::Error(PeerError::Throttled).encode(),
        vec![0xCC, 0xF6]
    );
}

#[test]
fn the_sync_envelope_is_the_multi_message_upload_shape() {
    let envelope = PeerSyncEnvelope {
        timestamp: 1234.5f64.to_bits(),
        messages: vec![vec![1u8; 150], vec![2u8; 150]],
    };
    let encoded = envelope.encode();
    let decoded = PeerSyncEnvelope::decode(&encoded).unwrap();
    assert_eq!(decoded, envelope);
    let single = PeerSyncEnvelope {
        timestamp: 1.0f64.to_bits(),
        messages: vec![vec![3u8; 150]],
    };
    assert_eq!(
        PeerSyncEnvelope::decode(&single.encode())
            .unwrap()
            .messages
            .len(),
        1
    );
}

#[test]
fn peering_key_material_puts_the_validator_first() {
    let material = peering_key_material(&[1; 16], &[2; 16]);
    assert_eq!(&material[..16], &[1; 16]);
    assert_eq!(&material[16..], &[2; 16]);
}

#[test]
fn answer_offer_wants_only_what_the_store_lacks() {
    let held = [5u8; 32];
    let missing_a = [6u8; 32];
    let missing_b = [7u8; 32];
    assert_eq!(
        answer_offer(&[held], |id| *id == held),
        OfferResponse::WantNone
    );
    assert_eq!(
        answer_offer(&[missing_a, missing_b], |id| *id == held),
        OfferResponse::WantAll
    );
    assert_eq!(
        answer_offer(&[held, missing_a], |id| *id == held),
        OfferResponse::Wanted(vec![missing_a])
    );
}

#[test]
fn the_inbound_gate_applies_the_reference_order_and_static_bypass() {
    let config = PeeringConfig {
        max_inbound_syncs: 1,
        from_static_only: false,
        static_peers: vec![[9; 16]],
        ..PeeringConfig::default()
    };
    let mut gate = InboundGate::default();
    assert_eq!(
        gate.allow(&config, &[1; 16], 0, true, 0),
        Err(PeerError::Throttled)
    );
    assert_eq!(
        gate.allow(&config, &[1; 16], 0, false, 1),
        Err(PeerError::Throttled)
    );
    assert_eq!(gate.allow(&config, &[9; 16], 0, true, 5), Ok(()));
    gate.throttle([1; 16], 100);
    assert_eq!(
        gate.allow(&config, &[1; 16], 100, false, 0),
        Err(PeerError::Throttled)
    );
    assert!(gate.is_throttled(&[1; 16], 100 + PN_STAMP_THROTTLE_SECS - 1));
    assert_eq!(
        gate.allow(&config, &[1; 16], 100 + PN_STAMP_THROTTLE_SECS, false, 0),
        Ok(())
    );
    let static_only = PeeringConfig {
        from_static_only: true,
        static_peers: vec![[9; 16]],
        ..PeeringConfig::default()
    };
    assert_eq!(
        gate.allow(&static_only, &[1; 16], 500, false, 0),
        Err(PeerError::NoAccess)
    );
    assert_eq!(gate.allow(&static_only, &[9; 16], 500, false, 0), Ok(()));
}

#[test]
fn build_offer_takes_everything_above_the_cursor_in_order() {
    let peer = peer_at(1);
    let entries = [entry(1, 300, 16), entry(2, 300, 16), entry(3, 300, 16)];
    let plan = build_offer(&peer, &entries, OFFER_BYTES_LIMIT).unwrap();
    assert_eq!(
        plan.ids,
        vec![entries[1].transient_id, entries[2].transient_id]
    );
    assert_eq!(plan.cursor_target, 3);
}

#[test]
fn low_value_and_oversize_entries_are_skipped_forever_via_the_cursor() {
    let peer = peer_at(0);
    let entries = [
        entry(1, 300, 0),
        entry(2, 300, 16),
        entry(3, 5000, 16),
        entry(4, 300, 16),
    ];
    let plan = build_offer(&peer, &entries, OFFER_BYTES_LIMIT).unwrap();
    assert_eq!(
        plan.ids,
        vec![entries[1].transient_id, entries[3].transient_id]
    );
    assert_eq!(plan.cursor_target, 4);
    assert_eq!(plan.skipped_low_value, 1);
    assert_eq!(plan.skipped_oversize, 1);
}

#[test]
fn the_sync_limit_stops_the_round_without_advancing_past_the_rest() {
    let peer = peer_at(0);
    let entries: Vec<StoredMessage> = (1..=10).map(|n| entry(n, 3900, 16)).collect();
    let plan = build_offer(&peer, &entries, OFFER_BYTES_LIMIT).unwrap();
    assert_eq!(plan.ids.len(), 8);
    assert_eq!(plan.cursor_target, 8);
}

#[test]
fn the_offer_byte_budget_bounds_one_round() {
    let mut peer = peer_at(0);
    peer.sync_limit_kb = 10_240;
    let entries: Vec<StoredMessage> = (1..=300).map(|n| entry(n, 10, 16)).collect();
    let plan = build_offer(&peer, &entries, OFFER_BYTES_LIMIT).unwrap();
    assert_eq!(plan.ids.len(), 179);
    assert_eq!(plan.cursor_target, 179);
    assert!(offer_encoded_len(plan.ids.len()) <= OFFER_BYTES_LIMIT);
}

#[test]
fn the_accounted_offer_size_is_what_the_encoder_produces() {
    for count in [0usize, 1, 15, 16, 179] {
        let offer = PeerOffer {
            peering_key: [3; 32],
            transient_ids: (0..count).map(|n| [n as u8; 32]).collect(),
        };
        assert_eq!(
            offer.encode().len(),
            offer_encoded_len(count),
            "accounted size differs from the encoder at {count} ids"
        );
    }
}

#[test]
fn an_offer_is_bounded_by_the_link_it_will_be_handed_to() {
    const LORA_MDU: usize = 431;
    let mut peer = peer_at(0);
    peer.sync_limit_kb = 10_240;
    let entries: Vec<StoredMessage> = (1..=50).map(|n| entry(n, 10, 16)).collect();

    let budget = offer_budget_for_mdu(LORA_MDU);
    let plan = build_offer(&peer, &entries, budget).unwrap();
    assert_eq!(plan.ids.len(), 10);
    assert!(REQUEST_ENVELOPE_BYTES + offer_encoded_len(plan.ids.len()) <= LORA_MDU);
    assert!(REQUEST_ENVELOPE_BYTES + offer_encoded_len(plan.ids.len() + 1) > LORA_MDU);

    assert_eq!(plan.cursor_target, 10);
    let mut peer = peer_at(plan.cursor_target);
    peer.sync_limit_kb = 10_240;
    let second = build_offer(&peer, &entries, budget).unwrap();
    assert_eq!(second.ids[0], entries[10].transient_id);
    assert_eq!(second.ids.len(), 10);
    assert_eq!(second.cursor_target, 20);
}

#[test]
fn rounds_bounded_by_a_link_still_drain_the_whole_store() {
    const LORA_MDU: usize = 431;
    let budget = offer_budget_for_mdu(LORA_MDU);
    let entries: Vec<StoredMessage> = (1..=50).map(|n| entry(n, 10, 16)).collect();
    let mut peer = peer_at(0);
    peer.sync_limit_kb = 10_240;

    let mut offered: Vec<TransientId> = Vec::new();
    let mut rounds = 0;
    while let Some(plan) = build_offer(&peer, &entries, budget) {
        rounds += 1;
        assert!(rounds <= 50, "the drain did not terminate");
        offered.extend_from_slice(&plan.ids);
        peer.cursor = plan.cursor_target;
    }
    assert_eq!(rounds, 5);
    let all: Vec<TransientId> = entries.iter().map(|entry| entry.transient_id).collect();
    assert_eq!(offered, all);
}

#[test]
fn a_budget_too_small_for_one_id_offers_nothing_rather_than_a_doomed_request() {
    let peer = peer_at(0);
    let entries = [entry(1, 10, 16)];
    assert_eq!(build_offer(&peer, &entries, OFFER_KEY_BYTES + 1), None);
    let plan = build_offer(&peer, &entries, OFFER_PROBE_BUDGET).unwrap();
    assert_eq!(plan.ids.len(), 1);
}

#[test]
fn the_probe_budget_still_steps_past_everything_dead() {
    let peer = peer_at(0);
    let entries = [entry(1, 300, 0), entry(2, 300, 0), entry(3, 300, 0)];
    let probed = build_offer(&peer, &entries, OFFER_PROBE_BUDGET).unwrap();
    let full = build_offer(&peer, &entries, OFFER_BYTES_LIMIT).unwrap();
    assert!(probed.ids.is_empty());
    assert_eq!(probed.cursor_target, full.cursor_target);
    assert_eq!(probed.skipped_low_value, full.skipped_low_value);
}

#[test]
fn a_stale_cursor_reads_as_older_than_everything_live() {
    let peer = peer_at(0);
    let entries = [entry(900, 300, 16), entry(901, 300, 16)];
    let plan = build_offer(&peer, &entries, OFFER_BYTES_LIMIT).unwrap();
    assert_eq!(plan.ids.len(), 2);
    assert_eq!(plan.cursor_target, 901);
}

#[test]
fn nothing_to_offer_is_none_but_pure_skips_still_advance() {
    let peer = peer_at(5);
    assert_eq!(
        build_offer(&peer, &[entry(5, 300, 16)], OFFER_BYTES_LIMIT),
        None
    );
    let plan = build_offer(&peer, &[entry(6, 300, 0)], OFFER_BYTES_LIMIT).unwrap();
    assert!(plan.ids.is_empty());
    assert_eq!(plan.cursor_target, 6);
}

#[test]
fn response_actions_match_the_reference_semantics() {
    let plan = OfferPlan {
        ids: vec![[1; 32], [2; 32]],
        cursor_target: 7,
        skipped_oversize: 0,
        skipped_low_value: 0,
    };
    assert_eq!(
        response_action(&OfferResponse::WantNone, &plan),
        ResponseAction::Concluded
    );
    assert_eq!(
        response_action(&OfferResponse::WantAll, &plan),
        ResponseAction::SendMessages(vec![[1; 32], [2; 32]])
    );
    assert_eq!(
        response_action(&OfferResponse::Wanted(vec![[2; 32], [9; 32]]), &plan),
        ResponseAction::SendMessages(vec![[2; 32]])
    );
    assert_eq!(
        response_action(&OfferResponse::Error(PeerError::Throttled), &plan),
        ResponseAction::Backoff(PN_STAMP_THROTTLE_SECS)
    );
    assert_eq!(
        response_action(&OfferResponse::Error(PeerError::NoAccess), &plan),
        ResponseAction::Unpeer
    );
    assert_eq!(
        response_action(&OfferResponse::Error(PeerError::InvalidKey), &plan),
        ResponseAction::RemineKey
    );
}

#[test]
fn peer_records_are_loaded_by_ascending_hash() {
    let mut store = MemoryPeerStore::default();
    let mut peer = peer_at(1);
    for byte in [9, 3, 200, 4] {
        peer.destination_hash = [byte; 16];
        store.save(&PeerRecord::of(&peer)).unwrap();
    }
    let hashes: Vec<u8> = store
        .load_all()
        .unwrap()
        .iter()
        .map(|record| record.destination_hash[0])
        .collect();
    assert_eq!(hashes, vec![3, 4, 9, 200]);
}

#[test]
fn peer_records_round_trip_through_a_store_and_restore() {
    let mut peer = peer_at(42);
    peer.identity_hash = Some([8; 16]);
    peer.peering_key = Some(([0xEE; 32], 19));
    let mut store = MemoryPeerStore::default();
    store.save(&PeerRecord::of(&peer)).unwrap();

    let mut table = table();
    table.restore(store.load_all().unwrap());
    let restored = table.get(&peer.destination_hash).unwrap();
    assert_eq!(restored.cursor, 42);
    assert_eq!(restored.peering_key, Some(([0xEE; 32], 19)));
    assert_eq!(restored.identity_hash, Some([8; 16]));
    assert_eq!(restored.state, SyncPhase::Idle);

    store.remove(&peer.destination_hash).unwrap();
    assert!(store.load_all().unwrap().is_empty());
}

#[test]
fn peer_keys_survive_identity_cache_roll() {
    let mut peers = PeerTable::new(PeeringConfig {
        max_peers: 16,
        ..PeeringConfig::default()
    });
    for n in 0..16u8 {
        let dest = [n; 16];
        assert_eq!(
            peers.handle_announce(dest, &announce(1), Some(1), 0, false),
            PeerChange::Added
        );
        assert!(peers
            .get_mut(&dest)
            .expect("announce peered")
            .capture_identity([n ^ 0xff; 16], [n; 64]));
    }
    for n in 0..16u8 {
        let peer = peers.get(&[n; 16]).expect("still peered");
        assert_eq!(peer.identity_hash, Some([n ^ 0xff; 16]));
        assert_eq!(
            peer.recall_identity(None),
            Some([n; 64]),
            "keys kept with the peer need no cache"
        );
        assert_eq!(
            peer.recall_identity(Some([0xee; 64])),
            Some([n; 64]),
            "the peer's own copy comes first"
        );
    }
}

#[test]
fn captured_keys_survive_store_restore() {
    let mut peer = peer_at(0);
    assert!(peer.capture_identity([4; 16], [5; 64]));
    assert!(
        !peer.capture_identity([4; 16], [5; 64]),
        "second capture is a no-op"
    );

    let mut store = MemoryPeerStore::default();
    store.save(&PeerRecord::of(&peer)).unwrap();
    let mut restored = table();
    restored.restore(store.load_all().unwrap());
    let kept = restored.get(&peer.destination_hash).unwrap();
    assert_eq!(kept.recall_identity(None), Some([5; 64]));
    assert_eq!(kept.identity_hash, Some([4; 16]));
}

#[test]
fn sync_batch_wire_size_never_exceeds_announced_limit() {
    const LIMIT: u64 = 8 * 1000;

    fn pack_batch(message_size: usize) -> Vec<Vec<u8>> {
        let mut batch = Vec::new();
        let mut cumulative = OFFER_BASE_SIZE;
        loop {
            let transfer = message_size as u64 + OFFER_PER_MESSAGE_OVERHEAD;
            if cumulative + transfer >= LIMIT {
                return batch;
            }
            cumulative += transfer;
            batch.push(vec![0xAB; message_size]);
        }
    }

    fn wire_bytes(batch: &[Vec<u8>]) -> usize {
        let mut out = Vec::new();
        msgpack::array(&mut out, 2);
        msgpack::double(&mut out, 1_726_000_000.5f64.to_bits());
        msgpack::array(&mut out, batch.len());
        for message in batch {
            msgpack::bin(&mut out, message);
        }
        out.len()
    }

    for message_size in [0usize, 1, 100, 255, 256, 4000] {
        let batch = pack_batch(message_size);
        assert!(!batch.is_empty(), "size {message_size}: batch must pack");
        let wire = wire_bytes(&batch);
        assert!(
            (wire as u64) < LIMIT,
            "size {message_size}: wire {wire} B (n={}) must stay below the \
             announced limit {LIMIT}",
            batch.len()
        );
    }
}

#[test]
fn unpeering_honours_the_timestamp_of_the_announce() {
    let mut table = table();
    table.handle_announce([1; 16], &announce(100), Some(1), 50, false);
    assert_eq!(table.unpeer(&[1; 16], 99), None);
    assert_eq!(table.unpeer(&[1; 16], 100), Some(()));
    assert_eq!(table.unpeer(&[1; 16], 100), None);
    assert!(table.is_empty());
}

#[test]
fn peers_are_walked_and_changed_in_key_order() {
    let mut table = table();
    table.handle_announce([2; 16], &announce(1), Some(1), 0, false);
    table.handle_announce([1; 16], &announce(1), Some(1), 0, false);
    let order: Vec<u8> = table.iter().iter().map(|(key, _)| key[0]).collect();
    assert_eq!(order, vec![1, 2]);
    for (_, peer) in table.iter_mut() {
        peer.cursor = 9;
    }
    assert_eq!(table.get(&[1; 16]).unwrap().cursor, 9);
    assert_eq!(table.get(&[2; 16]).unwrap().cursor, 9);
    assert_eq!(table.config().max_peers, 20);
}

#[test]
fn malformed_offers_are_rejected() {
    assert_eq!(
        PeerOffer::decode(&[0x91, 0xc0]),
        Err(PropagationError::InvalidLength)
    );
    assert_eq!(
        PeerOffer::decode(&[0x92, 0xc4, 0x01, 0x00, 0x90]),
        Err(PropagationError::InvalidLength)
    );
    assert!(OfferResponse::decode(&[0xc0]).is_err());
    assert_eq!(
        PeerSyncEnvelope::decode(&[0x93, 0x01, 0x90, 0xc0]),
        Err(PropagationError::InvalidLength)
    );
}

#[test]
fn unknown_errors_and_retries_map_to_actions() {
    let plan = OfferPlan {
        ids: vec![[1; 32]],
        cursor_target: 1,
        skipped_oversize: 0,
        skipped_low_value: 0,
    };
    assert_eq!(
        response_action(&OfferResponse::Error(PeerError::NotFound), &plan),
        ResponseAction::Retry
    );
}
