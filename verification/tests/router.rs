//! The router: queue, scheduler, inbound policy and snapshot.
use leviculum_lxmf::announce;
use leviculum_lxmf::bytemap::ByteMap;
use leviculum_lxmf::constants::{FIELD_TICKET, STAMP_COST_EXPIRY, STAMP_SIZE};
use leviculum_lxmf::message::SignatureCheck;
use leviculum_lxmf::msgpack;
use leviculum_lxmf::node::SendPlan;
use leviculum_lxmf::router::{
    record_successful_submission_attempt, ticket_values, unpack_local, AttemptCall, AttemptFacts,
    BuiltKind, LxmfRouter, MessageFacts,
    MessageState, OutboundEntry, OutboundPropagation, RouterConfig, RouterError, RouterEvent,
    RouterOutput, StampCost, Timing, DELIVERY_RETRY_WAIT_MS, MAX_DELIVERY_ATTEMPTS,
    MESSAGE_EXPIRY_SECS, PATH_REQUEST_WAIT_MS, PROCESSING_INTERVAL_MS,
};
use leviculum_lxmf::snapshot::verification_value;
use leviculum_lxmf::storage::StorageError;
use leviculum_lxmf::ticket::{Ticket, TicketStore};
use leviculum_lxmf::transport::{
    Aspect, CoreCall, CoreEvent, DestinationInfo, Facts, LinkCloseReason, ResourceError,
};
use leviculum_lxmf::{
    BuiltResource, DeliveryFailure, DeliveryMethod, DeliveryRepresentation, DeliveryStampRequest,
    InboundStampRequest, LxmfNode, LxmfNodeConfig, LxmfNodeError, LxmfNodeEvent, Message,
    MessageError, PendingResourceBuild, PreparedLxmfSend, PreparedUpload, PropagationTransport,
    PropagationTransportError, PropagationUploadRepresentation, SubmissionId, UploadSendParams, Verification,
};
use sha2::Digest;

const NOW_UNIX: f64 = 1_700_000_000.0;

fn full_hash(data: &[u8]) -> [u8; 32] {
    sha2::Sha256::digest(data).into()
}

fn at(now_ms: u64) -> Timing {
    Timing {
        now_ms,
        now_unix: NOW_UNIX.to_bits(),
    }
}

fn nothing() -> AttemptFacts {
    AttemptFacts {
        core: Facts::none(),
        link_active: false,
        taken: true,
        packet_hash: [0xa1; 16],
        hash: [0xa2; 32],
    }
}

fn plain() -> MessageFacts {
    MessageFacts {
        tickets: Vec::new(),
        ticket_current: false,
        ticket_stamp: false,
        stamp_worker: true,
    }
}

fn router(config: RouterConfig) -> LxmfRouter {
    let info = DestinationInfo {
        hash: [1; 16],
        incoming: true,
        single: true,
        aspect: Aspect::Delivery,
        identity_hash: Some([2; 16]),
    };
    let node = LxmfNode::register(&info, LxmfNodeConfig::default()).expect("register");
    LxmfRouter::new(node, [2; 16], config)
}

fn checkpoint(router: &mut LxmfRouter) {
    let bytes = router.snapshot().expect("snapshot");
    assert!(bytes.len() <= 128 * 1024);
    router.persist(Ok(())).expect("checkpoint router state");
}

fn persistence_request_count(output: &RouterOutput) -> usize {
    output
        .events
        .iter()
        .filter(|event| matches!(event, RouterEvent::PersistenceRequested))
        .count()
}

fn message_of(seed: u8, content: Vec<u8>, method: DeliveryMethod) -> Message {
    Message::create(
        [seed.wrapping_add(1); 16],
        [seed.wrapping_add(2); 16],
        Some([seed; 64]),
        1_700_000_000.25f64.to_bits(),
        b"persisted title".to_vec(),
        content,
        Vec::new(),
        method,
    )
    .expect("message")
}

fn message(seed: u8) -> Message {
    message_of(seed, b"persisted content".to_vec(), DeliveryMethod::Direct)
}

fn oversized_opportunistic_message(seed: u8) -> Message {
    let message = message_of(seed, vec![seed; 1_024], DeliveryMethod::Opportunistic);
    assert!(matches!(
        LxmfNode::representation(&message),
        Ok(DeliveryRepresentation::DirectResource)
    ));
    message
}

fn enqueue(router: &mut LxmfRouter, message: Message) -> [u8; 32] {
    let id = message.message_id;
    let output = router
        .enqueue(message, 1_000, false, None)
        .expect("queue message");
    assert_eq!(output.events[0], RouterEvent::MessageQueued(id));
    id
}

/// One processing round, with the calls that its attempts demanded.
fn tick(
    router: &mut LxmfRouter,
    now_ms: u64,
    facts: &AttemptFacts,
) -> (RouterOutput, Vec<AttemptCall>) {
    let t = at(now_ms);
    let mut calls = Vec::new();
    let mut events = Vec::new();
    match router.tick(now_ms) {
        Some(due) => {
            for id in due {
                calls.extend(router.attempt_call(&id, &t, facts));
                events.extend(router.attempt(&id, &t, facts));
            }
            (router.finish_tick(t.now_unix, None, events, None), calls)
        }
        None => (router.finish_timed(events, None), calls),
    }
}

fn failed(output: &RouterOutput, id: [u8; 32]) -> bool {
    output.events.iter().any(|event| {
        matches!(
            event,
            RouterEvent::MessageState { message_id, state: MessageState::Failed }
                if *message_id == id
        )
    })
}

fn entry_mut<'a>(router: &'a mut LxmfRouter, id: &[u8; 32]) -> &'a mut OutboundEntry {
    router.kept.outbound.get_mut(id).expect("queued entry")
}

#[test]
fn unknown_source_message_is_delivered_as_unverified() {
    let mut router = router(RouterConfig::default());
    let mut incoming = message(2);
    incoming.destination_hash = router.node().delivery_destination_hash();
    incoming.verification = Verification::Unverified;
    let message_id = incoming.message_id;

    let events = router.handle_inbound_message(incoming, 1_700_000_001.0f64.to_bits(), &plain());

    assert!(events.iter().any(|event| matches!(
        event,
        RouterEvent::MessageReceived(message)
            if message.message_id == message_id
                && message.verification == Verification::Unverified
    )));
}

#[test]
fn cryptographically_invalid_message_is_rejected() {
    let mut router = router(RouterConfig::default());
    let mut incoming = message(3);
    incoming.destination_hash = router.node().delivery_destination_hash();
    incoming.verification = Verification::Invalid;
    let message_id = incoming.message_id;

    let events = router.handle_inbound_message(incoming, 1_700_000_001.0f64.to_bits(), &plain());

    assert!(events.iter().any(|event| matches!(
        event,
        RouterEvent::InvalidSignature(id) if *id == message_id
    )));
    assert!(!events
        .iter()
        .any(|event| matches!(event, RouterEvent::MessageReceived(_))));
}

fn populated_router(config: RouterConfig) -> LxmfRouter {
    let mut router = router(config);
    let queued_id = enqueue(&mut router, message(40));
    let outbound = entry_mut(&mut router, &queued_id);
    outbound.state = MessageState::Sending;
    outbound.attempts = 3;
    outbound.next_attempt_ms = 98_765;
    outbound.progress = 0.625f32.to_bits();

    router.kept.outbound_stamp_costs.insert(
        [3; 16],
        StampCost {
            seen: 1_700_000_001.0f64.to_bits(),
            cost: Some(9),
            compression: true,
        },
    );
    router
        .kept
        .delivered_ids
        .insert([4; 32], 1_700_000_002.0f64.to_bits());
    router
        .kept
        .processed_ids
        .insert([5; 32], 1_700_000_003.0f64.to_bits());

    let tickets = router.tickets_mut();
    tickets.restore_inbound(
        [6; 16],
        Ticket {
            expires_unix: 1_701_814_400.0f64.to_bits(),
            secret: [9; 16],
        },
    );
    tickets.mark_delivered([6; 16], 1_700_000_004.0f64.to_bits());
    tickets.restore_outbound(
        [7; 16],
        Ticket {
            expires_unix: 1_701_814_401.0f64.to_bits(),
            secret: [8; 16],
        },
    );

    router.ignore([22; 16]);
    router.next_job_ms = 543_210;
    router
}

#[test]
fn complete_checkpoint_round_trips_within_storage_bound() {
    let config = RouterConfig::default();
    let mut original = populated_router(config);
    let bytes = original.snapshot().expect("snapshot");
    assert!(bytes.len() <= 128 * 1024);
    original.persist(Ok(())).expect("persist");

    let mut restored = router(config);
    restored.restore(Ok(Some(bytes))).expect("restore");
    let id = original.outbound().entries[0].0;
    let entry = entry_mut(&mut original, &id);
    entry.state = MessageState::Outbound;
    entry.next_attempt_ms = 0;
    entry.progress = 0.01f32.to_bits();
    original.next_job_ms = 0;
    assert_eq!(restored.snapshot().unwrap(), original.snapshot().unwrap());
    assert_eq!(restored.next_job_ms, 0);
    assert!(restored.kept.ignored.contains(&[22; 16]));
}

fn policy(sources: &[[u8; 16]]) -> ByteMap<16, ()> {
    let mut set = ByteMap::new();
    for source in sources {
        set.insert(*source, ());
    }
    set
}

#[test]
fn replacing_ignored_policy_is_bounded_and_requests_one_checkpoint() {
    let config = RouterConfig {
        max_policy_entries: 2,
        ..RouterConfig::default()
    };
    let mut router = router(config);

    let output = router
        .replace_ignored(policy(&[[1; 16], [2; 16]]))
        .expect("bounded ignore policy");
    assert_eq!(router.kept.ignored.len(), 2);
    assert_eq!(persistence_request_count(&output), 1);

    checkpoint(&mut router);
    let unchanged = router
        .replace_ignored(policy(&[[1; 16], [2; 16]]))
        .expect("unchanged ignore policy");
    assert_eq!(persistence_request_count(&unchanged), 0);

    assert!(matches!(
        router.replace_ignored(policy(&[[3; 16], [4; 16], [5; 16]])),
        Err(RouterError::QueueFull)
    ));
    assert_eq!(router.kept.ignored.len(), 2);
    assert!(router.kept.ignored.contains(&[1; 16]));
    assert!(router.kept.ignored.contains(&[2; 16]));
}

#[test]
fn replaced_ignore_policy_discards_inbound_before_delivery_state() {
    let mut router = router(RouterConfig::default());
    let mut incoming = message(23);
    incoming.destination_hash = router.node().delivery_destination_hash();
    let source_hash = incoming.source_hash;
    let message_id = incoming.message_id;
    let _ = router
        .replace_ignored(policy(&[source_hash]))
        .expect("ignore source");

    let events = router.handle_inbound_message(incoming, 1_700_000_001.0f64.to_bits(), &plain());

    assert!(!router.has_message(&message_id));
    assert!(!events
        .iter()
        .any(|event| matches!(event, RouterEvent::MessageReceived(_))));
}

#[test]
fn identity_mismatch_is_rejected_without_partial_restore() {
    let config = RouterConfig::default();
    let bytes = populated_router(config).snapshot().unwrap();

    let mut target = router(config);
    target.identity_hash = [0xff; 16];
    target.ignore([0xee; 16]);
    let before = target.snapshot().unwrap();
    assert_eq!(
        target.restore(Ok(Some(bytes))),
        Err(RouterError::CorruptSnapshot)
    );
    assert_eq!(target.snapshot().unwrap(), before);
}

#[test]
fn truncated_snapshot_is_rejected_without_partial_restore() {
    let config = RouterConfig::default();
    let mut state = populated_router(config).snapshot().unwrap();
    state.truncate(state.len() / 2);

    let mut target = router(config);
    target.ignore([0xdd; 16]);
    let before = target.snapshot().unwrap();
    assert!(target.restore(Ok(Some(state))).is_err());
    assert_eq!(target.snapshot().unwrap(), before);
}

#[test]
fn restore_rejects_counts_above_configured_capacity() {
    let bytes = populated_router(RouterConfig::default()).snapshot().unwrap();

    let bounded_config = RouterConfig {
        max_outbound: 0,
        ..RouterConfig::default()
    };
    let mut target = router(bounded_config);
    assert_eq!(
        target.restore(Ok(Some(bytes))),
        Err(RouterError::CorruptSnapshot)
    );
    assert!(target.outbound().is_empty());
    assert!(target.kept.ignored.is_empty());
}

fn cost(seen: f64, cost: u8, compression: bool) -> StampCost {
    StampCost {
        seen: seen.to_bits(),
        cost: Some(cost),
        compression,
    }
}

#[test]
fn stamp_cost_cache_evicts_the_oldest_announce() {
    let mut router = router(RouterConfig {
        max_stamp_costs: 2,
        ..RouterConfig::default()
    });
    router.insert_bounded_stamp_cost([1; 16], cost(10.0, 1, true));
    router.insert_bounded_stamp_cost([2; 16], cost(20.0, 2, true));
    router.insert_bounded_stamp_cost([3; 16], cost(30.0, 3, true));

    assert!(!router.kept.outbound_stamp_costs.contains(&[1; 16]));
    assert!(router.kept.outbound_stamp_costs.contains(&[2; 16]));
    assert!(router.kept.outbound_stamp_costs.contains(&[3; 16]));
}

fn announced(destination: [u8; 16], app_data: Vec<u8>) -> CoreEvent {
    CoreEvent::AnnounceReceived {
        destination,
        aspect: Aspect::Delivery,
        app_data,
    }
}

#[test]
fn delivery_announce_stamp_cost_requests_one_checkpoint() {
    let mut router = router(RouterConfig::default());
    let event = announced([70; 16], announce::delivery(Some(b"remote"), Some(9)));

    let output = router
        .handle_event(&event, &Facts::none(), &at(1_000), &plain(), None)
        .expect("handle delivery announce");

    assert_eq!(
        router.outbound_stamp_cost(&[70; 16], NOW_UNIX.to_bits()),
        Some(9)
    );
    assert_eq!(persistence_request_count(&output), 1);
}

#[test]
fn hostile_announced_stamp_cost_is_not_mined() {
    let mut router = router(RouterConfig::default());
    let destination = [73; 16];
    let app_data = vec![
        0x93, 0xc4, 0x06, b'r', b'e', b'm', b'o', b't', b'e', 0xcc, 0xff, 0x91, 0x00,
    ];
    let _ = router
        .handle_event(
            &announced(destination, app_data),
            &Facts::none(),
            &at(1_000),
            &plain(),
            None,
        )
        .expect("handle delivery announce");

    assert_eq!(
        router
            .kept
            .outbound_stamp_costs
            .get(&destination)
            .and_then(|entry| entry.cost),
        Some(255),
        "the announced value is stored verbatim; only the accessor filters"
    );
    assert_eq!(
        router.outbound_stamp_cost(&destination, NOW_UNIX.to_bits()),
        None
    );

    let mut queued = message(74);
    queued.destination_hash = destination;
    let id = enqueue(&mut router, queued);
    assert_eq!(router.outbound_stamp_request(&id, NOW_UNIX.to_bits()), None);
    let (output, _) = tick(&mut router, 1_000, &nothing());
    assert!(
        !output
            .events
            .iter()
            .any(|event| matches!(event, RouterEvent::StampPending(_))),
        "no stamp work may be requested for an unannounceable cost"
    );

    assert_eq!(
        router
            .kept
            .outbound_stamp_costs
            .insert(destination, cost(1_700_000_000.0, 254, true)),
        Some(cost(1_700_000_000.0, 255, true))
    );
    assert_eq!(
        router.outbound_stamp_cost(&destination, NOW_UNIX.to_bits()),
        Some(254)
    );
}

#[test]
fn unknown_peer_retry_uses_delivery_retry_wait() {
    let mut router = router(RouterConfig::default());
    let id = enqueue(&mut router, message(71));
    checkpoint(&mut router);

    let (output, _) = tick(&mut router, 1_000, &nothing());
    let entry = router.outbound().get(&id).expect("retry remains queued");
    assert_eq!(entry.attempts, 1);
    assert_eq!(entry.next_attempt_ms, 1_000 + DELIVERY_RETRY_WAIT_MS);
    assert_eq!(persistence_request_count(&output), 1);
}

#[test]
fn direct_delivery_uses_shared_attempt_limit() {
    let mut router = router(RouterConfig::default());
    let id = enqueue(&mut router, message(72));
    let entry = entry_mut(&mut router, &id);
    entry.attempts = MAX_DELIVERY_ATTEMPTS;
    entry.next_attempt_ms = 1_000;

    let (output, _) = tick(&mut router, 1_000, &nothing());

    assert!(!router.outbound().contains(&id));
    assert!(failed(&output, id));
}

#[test]
fn active_direct_delivery_does_not_consume_another_attempt() {
    let mut router = router(RouterConfig::default());
    let id = enqueue(&mut router, message(83));
    let entry = entry_mut(&mut router, &id);
    entry.attempts = MAX_DELIVERY_ATTEMPTS;
    entry.state = MessageState::Sending;
    entry.next_attempt_ms = 1_000;

    let (output, _) = tick(&mut router, 1_000, &nothing());
    let entry = router
        .outbound()
        .get(&id)
        .expect("active direct delivery stays queued");

    assert_eq!(entry.attempts, MAX_DELIVERY_ATTEMPTS);
    assert_eq!(entry.state, MessageState::Sending);
    assert_eq!(
        entry.next_attempt_ms,
        1_000_u64.saturating_add(PROCESSING_INTERVAL_MS)
    );
    assert!(!failed(&output, id));
}

#[test]
fn direct_payload_submission_stays_within_the_link_attempt() {
    let mut router = router(RouterConfig::default());
    let id = enqueue(&mut router, message(85));
    let entry = entry_mut(&mut router, &id);
    entry.attempts = 1;

    record_successful_submission_attempt(entry, &Ok(DeliveryRepresentation::DirectPacket));
    assert_eq!(entry.attempts, 1);

    record_successful_submission_attempt(entry, &Ok(DeliveryRepresentation::DirectResource));
    assert_eq!(entry.attempts, 1);

    record_successful_submission_attempt(entry, &Ok(DeliveryRepresentation::OpportunisticPacket));
    assert_eq!(entry.attempts, 2);
}

#[test]
fn oversized_opportunistic_fallback_uses_shared_attempt_limit() {
    let mut router = router(RouterConfig::default());
    let id = enqueue(&mut router, oversized_opportunistic_message(84));
    let entry = entry_mut(&mut router, &id);
    entry.attempts = MAX_DELIVERY_ATTEMPTS;
    entry.next_attempt_ms = 1_000;

    let (output, _) = tick(&mut router, 1_000, &nothing());

    assert!(!router.outbound().contains(&id));
    assert!(failed(&output, id));
}

#[test]
fn active_oversized_opportunistic_fallback_is_not_resubmitted() {
    let mut router = router(RouterConfig::default());
    let id = enqueue(&mut router, oversized_opportunistic_message(85));
    let entry = entry_mut(&mut router, &id);
    entry.attempts = MAX_DELIVERY_ATTEMPTS;
    entry.state = MessageState::Sending;
    entry.next_attempt_ms = 1_000;

    let (output, calls) = tick(&mut router, 1_000, &nothing());
    let entry = router
        .outbound()
        .get(&id)
        .expect("active direct fallback stays queued");

    assert_eq!(entry.attempts, MAX_DELIVERY_ATTEMPTS);
    assert_eq!(entry.state, MessageState::Sending);
    assert_eq!(
        entry.next_attempt_ms,
        1_000_u64.saturating_add(PROCESSING_INTERVAL_MS)
    );
    assert!(!failed(&output, id));
    assert!(calls.is_empty());
}

#[test]
fn cancelling_an_outbound_message_removes_it_and_emits_cancelled() {
    let mut router = router(RouterConfig::default());
    let id = enqueue(&mut router, message(82));

    let output = router.cancel(&id).expect("cancel queued message");

    assert!(!router.outbound().contains(&id));
    assert!(output.events.iter().any(|event| matches!(
        event,
        RouterEvent::MessageState { message_id, state: MessageState::Cancelled }
            if *message_id == id
    )));
    assert_eq!(router.cancel(&id), Err(RouterError::NotFound));
}

#[test]
fn opportunistic_unknown_path_is_requested_before_first_attempt() {
    let mut router = router(RouterConfig::default());
    let mut queued = message(73);
    queued.method = DeliveryMethod::Opportunistic;
    let destination = queued.destination_hash;
    let id = enqueue(&mut router, queued);

    let (_, calls) = tick(&mut router, 1_000, &nothing());
    let entry = router.outbound().get(&id).expect("message remains queued");
    assert_eq!(entry.attempts, 0);
    assert!(router.preemptive_path_requests.contains(&id));
    assert_eq!(entry.next_attempt_ms, 1_000 + PATH_REQUEST_WAIT_MS);
    assert_eq!(
        calls,
        vec![AttemptCall::Core(CoreCall::RequestPath { destination })]
    );
}

#[test]
fn opportunistic_submission_matches_python_sent_state() {
    let mut router = router(RouterConfig::default());
    let mut queued = message(79);
    queued.method = DeliveryMethod::Opportunistic;
    let id = enqueue(&mut router, queued);

    let events = router.handle_node_event(
        LxmfNodeEvent::Submitted {
            message_id: id,
            method: DeliveryMethod::Opportunistic,
            representation: DeliveryRepresentation::OpportunisticPacket,
            submission: SubmissionId::Packet([0; 16]),
        },
        &at(1_000),
        &plain(),
    );

    assert_eq!(
        router.outbound().get(&id).unwrap().state,
        MessageState::Sent
    );
    assert!(events.is_empty());
}

fn known_peer(has_path: bool) -> AttemptFacts {
    AttemptFacts {
        core: Facts {
            has_path,
            identity_known: true,
            new_link: [0x91; 16],
            ..Facts::none()
        },
        ..nothing()
    }
}

#[test]
fn observing_pending_direct_link_does_not_consume_an_attempt() {
    let mut router = router(RouterConfig::default());
    let mut queued = message(75);
    queued.destination_hash = [74; 16];
    let id = enqueue(&mut router, queued);

    let (_, calls) = tick(&mut router, 1_000, &known_peer(true));
    assert_eq!(
        calls,
        vec![AttemptCall::Core(CoreCall::Connect {
            destination: [74; 16]
        })]
    );
    let entry = router.outbound().get(&id).expect("message remains queued");
    assert_eq!(entry.attempts, 1);
    assert_eq!(entry.next_attempt_ms, 1_000 + DELIVERY_RETRY_WAIT_MS);

    router.next_job_ms = 1_000;
    entry_mut(&mut router, &id).next_attempt_ms = 1_000;
    let (_, calls) = tick(&mut router, 1_000, &known_peer(true));
    assert!(calls.is_empty());
    let entry = router.outbound().get(&id).expect("message remains queued");
    assert_eq!(entry.attempts, 1);
    assert_eq!(entry.next_attempt_ms, 1_000 + PROCESSING_INTERVAL_MS);
}

#[test]
fn direct_link_establishment_wakes_waiting_message_without_an_attempt() {
    let mut router = router(RouterConfig::default());
    let destination = [0x76; 16];
    let mut queued = message(76);
    queued.destination_hash = destination;
    let id = enqueue(&mut router, queued);
    let entry = entry_mut(&mut router, &id);
    entry.attempts = 1;
    entry.next_attempt_ms = 1_000 + DELIVERY_RETRY_WAIT_MS;
    router.next_job_ms = 1_000 + PROCESSING_INTERVAL_MS;
    checkpoint(&mut router);

    let _ = router.handle_node_event(
        LxmfNodeEvent::DirectLinkEstablished {
            destination: Some(destination),
            link_id: [0x77; 16],
            is_initiator: true,
        },
        &Timing {
            now_ms: 1_250,
            now_unix: 1_700_000_001.0f64.to_bits(),
        },
        &plain(),
    );

    let entry = router.outbound().get(&id).unwrap();
    assert_eq!(entry.attempts, 1);
    assert_eq!(entry.next_attempt_ms, 1_250);
    assert_eq!(router.next_job_ms, 1_250);
    assert!(router.persistence_dirty);
}

#[test]
fn direct_unknown_path_counts_one_request_attempt() {
    let mut router = router(RouterConfig::default());
    let mut queued = message(77);
    queued.destination_hash = [76; 16];
    let id = enqueue(&mut router, queued);

    let (_, calls) = tick(&mut router, 1_000, &known_peer(false));
    let entry = router.outbound().get(&id).expect("message remains queued");
    assert_eq!(entry.attempts, 1);
    assert_eq!(entry.next_attempt_ms, 1_000 + PATH_REQUEST_WAIT_MS);
    assert_eq!(
        calls,
        vec![AttemptCall::Core(CoreCall::RequestPath {
            destination: [76; 16]
        })]
    );
}

#[test]
fn closed_direct_link_requests_path_only_for_a_waiting_message() {
    let mut router = router(RouterConfig::default());
    let destination = [0x78; 16];
    let mut queued = message(78);
    queued.destination_hash = destination;
    let _ = enqueue(&mut router, queued);
    let event = CoreEvent::LinkClosed {
        link_id: [0x79; 16],
        reason: LinkCloseReason::PeerClosed,
        is_initiator: true,
        destination,
    };

    let output = router
        .handle_event(&event, &Facts::none(), &at(1_000), &plain(), None)
        .expect("handle direct link close");
    assert_eq!(output.calls, vec![CoreCall::RequestPath { destination }]);

    router.kept.outbound = ByteMap::new();
    let output = router
        .handle_event(&event, &Facts::none(), &at(1_000), &plain(), None)
        .expect("handle idle link close");
    assert!(output.calls.is_empty());
}

#[test]
fn idle_scheduler_tick_does_not_request_a_checkpoint() {
    let mut router = router(RouterConfig::default());

    let (output, _) = tick(&mut router, 1_000, &nothing());

    assert_eq!(router.next_job_ms, 1_000 + PROCESSING_INTERVAL_MS);
    assert_eq!(persistence_request_count(&output), 0);
}

#[test]
fn delivery_failure_and_progress_each_request_a_checkpoint() {
    let mut router = router(RouterConfig::default());
    let id = enqueue(&mut router, message(72));
    checkpoint(&mut router);
    entry_mut(&mut router, &id).state = MessageState::Sending;

    let failure_events = router.handle_node_event(
        LxmfNodeEvent::DeliveryFailed {
            message_id: id,
            reason: DeliveryFailure::DirectPacketTimeout,
        },
        &at(1_000),
        &plain(),
    );
    let failure = router.finish_output(failure_events);
    let entry = router.outbound().get(&id).unwrap();
    assert_eq!(entry.state, MessageState::Outbound);
    assert_eq!(entry.next_attempt_ms, 1_000 + DELIVERY_RETRY_WAIT_MS);
    assert_eq!(persistence_request_count(&failure), 1);
    checkpoint(&mut router);

    let progress_events = router.handle_node_event(
        LxmfNodeEvent::Progress {
            message_id: id,
            progress: 0.75f32.to_bits(),
        },
        &at(5_000),
        &plain(),
    );
    let progress = router.finish_output(progress_events);
    assert_eq!(
        router.outbound().get(&id).unwrap().progress,
        0.75f32.to_bits()
    );
    assert_eq!(persistence_request_count(&progress), 1);
}

#[test]
fn receiver_cancelled_resource_is_terminally_rejected() {
    let mut router = router(RouterConfig::default());
    let id = enqueue(&mut router, message(86));
    checkpoint(&mut router);
    entry_mut(&mut router, &id).state = MessageState::Sending;

    let events = router.handle_node_event(
        LxmfNodeEvent::DeliveryFailed {
            message_id: id,
            reason: DeliveryFailure::Resource(ResourceError::Cancelled),
        },
        &at(5_000),
        &plain(),
    );

    assert!(!router.outbound().contains(&id));
    assert!(router.persistence_dirty);
    assert_eq!(
        events,
        vec![RouterEvent::MessageState {
            message_id: id,
            state: MessageState::Rejected,
        }]
    );
}

#[test]
fn cleanup_removals_request_one_checkpoint() {
    let mut router = router(RouterConfig::default());
    router.insert_bounded_stamp_cost([1; 16], cost(0.0, 4, true));
    router.insert_bounded_id([2; 32], 0.0f64.to_bits(), true);
    router.insert_bounded_id([3; 32], 0.0f64.to_bits(), false);
    router.tickets_mut().restore_outbound(
        [4; 16],
        Ticket {
            expires_unix: 10.0f64.to_bits(),
            secret: [5; 16],
        },
    );
    checkpoint(&mut router);

    let now_unix = MESSAGE_EXPIRY_SECS as f64 * 7.0 + STAMP_COST_EXPIRY as f64 + 100.0;
    router.clean(now_unix.to_bits(), Some(TicketStore::default()));
    let output = router.finish_output(Vec::new());

    assert!(router.kept.outbound_stamp_costs.is_empty());
    assert!(router.kept.delivered_ids.is_empty());
    assert!(router.kept.processed_ids.is_empty());
    assert!(router.tickets().outbound_entries().is_empty());
    assert_eq!(persistence_request_count(&output), 1);
}

#[test]
fn failed_checkpoint_remains_dirty_until_a_successful_retry() {
    let mut router = router(RouterConfig::default());
    let _ = enqueue(&mut router, message(73));
    assert_eq!(
        router.persist(Err(StorageError::Full)),
        Err(RouterError::Storage(StorageError::Full))
    );
    assert_eq!(
        persistence_request_count(&router.finish_output(Vec::new())),
        1
    );

    checkpoint(&mut router);
    assert_eq!(
        persistence_request_count(&router.finish_output(Vec::new())),
        0
    );
}

#[test]
fn policy_mutations_are_flushed_by_the_next_router_output() {
    let mut router = router(RouterConfig::default());
    let source = [0x44; 16];
    router.ignore(source);
    assert_eq!(
        persistence_request_count(&router.finish_output(Vec::new())),
        1
    );
    checkpoint(&mut router);

    router.unignore(&source);
    assert_eq!(
        persistence_request_count(&router.finish_output(Vec::new())),
        1
    );
}

#[test]
fn propagated_requires_a_selected_client_node_and_paper_uses_its_own_api() {
    let mut router = router(RouterConfig::default());
    let mut propagated = message(41);
    propagated.method = DeliveryMethod::Propagated;
    assert!(matches!(
        router.enqueue(propagated, 1_000, false, None),
        Err(RouterError::PropagationNodeUnavailable)
    ));

    let mut paper = message(42);
    paper.method = DeliveryMethod::Paper;
    assert!(matches!(
        router.enqueue(paper, 1_000, false, None),
        Err(RouterError::UnsupportedMethod)
    ));
}

#[test]
fn queued_outbound_accepts_both_stamp_lengths_and_becomes_due() {
    let mut router = router(RouterConfig::default());
    router.next_job_ms = 90_000;

    for (seed, length, now_ms) in [(43u8, 16usize, 1_200u64), (44, 32, 1_100)] {
        let id = enqueue(&mut router, message(seed));

        let output = router
            .set_outbound_stamp(&id, vec![seed; length], now_ms, None)
            .expect("attach queued stamp");
        let entry = router.outbound().get(&id).expect("queued entry");
        assert_eq!(
            entry.message.stamp.as_deref(),
            Some(&vec![seed; length][..])
        );
        assert_eq!(entry.next_attempt_ms, now_ms);
        assert_eq!(output.events, vec![RouterEvent::PersistenceRequested]);
        assert_eq!(output.next_deadline_ms, Some(now_ms));
    }
    assert_eq!(router.next_job_ms, 1_100);
}

#[test]
fn invalid_queued_stamp_is_rejected_without_mutating_entry() {
    let mut router = router(RouterConfig::default());
    let id = enqueue(&mut router, message(45));

    assert!(matches!(
        router.set_outbound_stamp(&id, vec![0xaa; 31], 1_000, None),
        Err(RouterError::Message(MessageError::InvalidFormat))
    ));
    let entry = router.outbound().get(&id).expect("queued entry");
    assert!(entry.message.stamp.is_none());
    assert_eq!(entry.next_attempt_ms, 1_000);
}

#[test]
fn detached_delivery_stamp_result_rejects_a_changed_cost() {
    let mut router = router(RouterConfig::default());
    let queued = message(46);
    let destination = queued.destination_hash;
    router.insert_bounded_stamp_cost(destination, cost(1_700_000_000.0, 8, false));
    let message_id = enqueue(&mut router, queued);
    let stale = router
        .outbound_stamp_request(&message_id, NOW_UNIX.to_bits())
        .expect("detached request");

    router.insert_bounded_stamp_cost(destination, cost(1_700_000_002.0, 9, false));
    assert!(matches!(
        router.set_outbound_stamp_result(&stale, vec![0x46; STAMP_SIZE], &at(1_000), None),
        Err(RouterError::StaleStampRequest)
    ));
    assert!(router
        .outbound()
        .get(&message_id)
        .unwrap()
        .message
        .stamp
        .is_none());

    let current = router
        .outbound_stamp_request(&message_id, NOW_UNIX.to_bits())
        .expect("updated request");
    let _ = router
        .set_outbound_stamp_result(&current, vec![0x47; STAMP_SIZE], &at(1_000), None)
        .expect("attach current result");
    assert_eq!(
        router
            .outbound()
            .get(&message_id)
            .unwrap()
            .message
            .stamp
            .as_deref(),
        Some(&[0x47; STAMP_SIZE][..])
    );
}

fn prepared(message: &Message, filler: u8, length: usize) -> OutboundPropagation {
    let mut unstamped_lxmf = message.destination_hash.to_vec();
    unstamped_lxmf.extend_from_slice(&vec![filler; length]);
    OutboundPropagation {
        timebase: 1_700_000_000.0f64.to_bits(),
        transient_id: full_hash(&unstamped_lxmf),
        unstamped_lxmf,
        target_cost: Some(8),
        stamp: None,
    }
}

#[test]
fn detached_propagation_stamp_result_rejects_changed_material() {
    let mut router = router(RouterConfig::default());
    let mut outbound = message(47);
    outbound.method = DeliveryMethod::Propagated;
    let message_id = outbound.message_id;
    let propagation = prepared(&outbound, 0x91, 96);
    router.kept.outbound.insert(
        message_id,
        OutboundEntry {
            message: outbound,
            state: MessageState::Outbound,
            attempts: 0,
            next_attempt_ms: 0,
            progress: 0.01f32.to_bits(),
            propagation: Some(propagation),
        },
    );
    let stale = router
        .outbound_propagation_stamp_request(&message_id)
        .expect("detached request");
    entry_mut(&mut router, &message_id)
        .propagation
        .as_mut()
        .unwrap()
        .target_cost = Some(9);

    assert!(matches!(
        router.set_outbound_propagation_stamp_result(&stale, [0x92; STAMP_SIZE], 1_000, None),
        Err(RouterError::StaleStampRequest)
    ));
    let current = router
        .outbound_propagation_stamp_request(&message_id)
        .expect("updated request");
    let _ = router
        .set_outbound_propagation_stamp_result(&current, [0x93; STAMP_SIZE], 1_001, None)
        .expect("attach current result");
    assert_eq!(
        router
            .outbound()
            .get(&message_id)
            .unwrap()
            .propagation
            .as_ref()
            .and_then(|prepared| prepared.stamp),
        Some([0x93; STAMP_SIZE])
    );
}

#[test]
fn detached_inbound_validation_retains_message_and_rejects_stale_cost() {
    let mut router = router(RouterConfig {
        enforce_stamps: true,
        inbound_stamp_cost: Some(8),
        ..RouterConfig::default()
    });
    let mut incoming = message(48);
    incoming.destination_hash = router.node().delivery_destination_hash();
    incoming
        .set_stamp(vec![0x94; STAMP_SIZE])
        .expect("attach candidate stamp");
    let message_id = incoming.message_id;
    let events = router.handle_inbound_message(incoming, 1_700_000_001.0f64.to_bits(), &plain());
    let request = events
        .iter()
        .find_map(|event| match event {
            RouterEvent::InboundStampPending(request) => Some(*request),
            _ => None,
        })
        .expect("detached validation request");
    assert_eq!(
        request,
        InboundStampRequest {
            message_id,
            stamp: [0x94; STAMP_SIZE],
            target_cost: 8,
        }
    );

    router.config.inbound_stamp_cost = Some(9);
    assert!(matches!(
        router.set_inbound_stamp_result(&request, true),
        Err(RouterError::StaleStampRequest)
    ));
    assert_eq!(router.pending_inbound_stamps.len(), 1);

    router.config.inbound_stamp_cost = Some(8);
    let output = router
        .set_inbound_stamp_result(&request, true)
        .expect("apply current validation");
    assert!(output.events.iter().any(|event| matches!(
        event,
        RouterEvent::MessageReceived(message) if message.message_id == message_id
    )));
    assert!(router.pending_inbound_stamps.is_empty());
}

#[test]
fn issued_ticket_stamp_is_accepted_synchronously_even_without_pow() {
    let mut router = router(RouterConfig {
        enforce_stamps: true,
        inbound_stamp_cost: Some(20),
        ..RouterConfig::default()
    });
    let remote_hash = [0x61; 16];
    let mut issued = TicketStore::default();
    issued.restore_inbound(
        remote_hash,
        Ticket {
            expires_unix: 1_701_814_400.0f64.to_bits(),
            secret: [0x62; 16],
        },
    );
    let (field, output) = router
        .issue_ticket_field(true, &remote_hash, issued, Some(vec![0xc0]))
        .expect("issue reply ticket");
    assert_eq!(persistence_request_count(&output), 1);
    let field = field.expect("ticket is due");
    assert_eq!(field.0, FIELD_TICKET);

    let mut incoming = message(90);
    incoming.destination_hash = router.node().delivery_destination_hash();
    incoming.source_hash = remote_hash;
    incoming
        .set_stamp(vec![0x63; 16])
        .expect("attach ticket-derived stamp");
    let message_id = incoming.message_id;
    let facts = MessageFacts {
        ticket_stamp: true,
        stamp_worker: false,
        ..plain()
    };

    let events = router.handle_inbound_message(incoming, 1_700_000_001.0f64.to_bits(), &facts);

    assert!(events.iter().any(|event| matches!(
        event,
        RouterEvent::MessageReceived(message) if message.message_id == message_id
    )));
    assert!(!events.iter().any(|event| matches!(
        event,
        RouterEvent::StampPending(_) | RouterEvent::InvalidStamp(_)
    )));
}

#[test]
fn remembered_ticket_stamps_propagated_outbound_before_encryption() {
    let mut router = router(RouterConfig::default());
    let mut outbound = message(91);
    outbound.method = DeliveryMethod::Propagated;
    let message_id = outbound.message_id;

    let _ = router
        .enqueue(outbound, 1_000, true, Some(vec![0x72; 16]))
        .expect("queue ticket-stamped propagation message");

    let entry = router.outbound().get(&message_id).expect("queued entry");
    assert_eq!(entry.message.stamp.as_deref(), Some(&[0x72; 16][..]));
    assert_eq!(entry.message.stamp.as_ref().map(Vec::len), Some(16));
    assert!(entry.propagation.is_none(), "outer stamp remains separate");
}

#[test]
fn restore_preserves_prepared_propagation_but_rebases_volatile_queue_state() {
    let config = RouterConfig::default();
    let mut original = router(config);
    original.next_job_ms = 99_000;
    let mut outbound = message(92);
    outbound.method = DeliveryMethod::Propagated;
    let message_id = outbound.message_id;
    let propagation = OutboundPropagation {
        timebase: 1_700_000_005.5f64.to_bits(),
        target_cost: Some(11),
        stamp: Some([0x82; STAMP_SIZE]),
        ..prepared(&outbound, 0x81, 128)
    };
    original.kept.outbound.insert(
        message_id,
        OutboundEntry {
            message: outbound.clone(),
            state: MessageState::Sending,
            attempts: 2,
            next_attempt_ms: 12_000,
            progress: 0.4f32.to_bits(),
            propagation: Some(propagation.clone()),
        },
    );

    let bytes = original.snapshot().expect("persist current snapshot");
    let mut restored = router(config);
    restored
        .restore(Ok(Some(bytes)))
        .expect("restore current snapshot");

    assert_eq!(restored.next_job_ms, 0);
    let restored_entry = restored
        .outbound()
        .get(&message_id)
        .expect("restored entry");
    assert_eq!(restored_entry.state, MessageState::Outbound);
    assert_eq!(restored_entry.attempts, 2);
    assert_eq!(restored_entry.next_attempt_ms, 0);
    assert_eq!(restored_entry.progress, 0.01f32.to_bits());
    assert_eq!(restored_entry.propagation.as_ref(), Some(&propagation));
    assert_eq!(restored_entry.message.pack(), outbound.pack());
}

#[test]
fn version_three_snapshot_restores_without_propagation_preparation() {
    let mut source = router(RouterConfig::default());
    let outbound = message(93);
    let message_id = outbound.message_id;
    let mut snapshot = Vec::new();
    msgpack::array(&mut snapshot, 9);
    msgpack::uint(&mut snapshot, 3);
    msgpack::bin(&mut snapshot, &source.identity_hash);
    msgpack::array(&mut snapshot, 1);
    msgpack::array(&mut snapshot, 7);
    msgpack::bin(&mut snapshot, &outbound.pack());
    msgpack::uint(&mut snapshot, DeliveryMethod::Direct.code());
    msgpack::uint(&mut snapshot, MessageState::Sending.code());
    msgpack::uint(&mut snapshot, verification_value(outbound.verification));
    msgpack::uint(&mut snapshot, 3);
    msgpack::uint(&mut snapshot, 80_000);
    msgpack::double(&mut snapshot, 0.75f64.to_bits());
    msgpack::array(&mut snapshot, 0);
    msgpack::array(&mut snapshot, 0);
    msgpack::array(&mut snapshot, 0);
    msgpack::array(&mut snapshot, 3);
    msgpack::array(&mut snapshot, 0);
    msgpack::array(&mut snapshot, 0);
    msgpack::array(&mut snapshot, 0);
    msgpack::array(&mut snapshot, 0);
    msgpack::uint(&mut snapshot, 90_000);

    source
        .restore(Ok(Some(snapshot)))
        .expect("restore old snapshot");

    let restored = source
        .outbound()
        .get(&message_id)
        .expect("restored message");
    assert!(restored.propagation.is_none());
    assert_eq!(restored.message.pack(), outbound.pack());
    assert_eq!(restored.state, MessageState::Outbound);
    assert_eq!(restored.attempts, 3);
    assert_eq!(restored.next_attempt_ms, 0);
    assert_eq!(restored.progress, 0.01f32.to_bits());
    assert_eq!(source.next_job_ms, 0);
}

// --- Further behaviour -----------------------------------------------------

#[test]
fn a_single_packet_is_sent_and_then_delivered() {
    let mut router = router(RouterConfig::default());
    let mut queued = message(5);
    queued.method = DeliveryMethod::Opportunistic;
    let packed = queued.pack();
    let destination = queued.destination_hash;
    let id = enqueue(&mut router, queued);
    let facts = AttemptFacts {
        core: Facts {
            has_path: true,
            ..Facts::none()
        },
        ..nothing()
    };
    let (_, calls) = tick(&mut router, 1_000, &facts);
    assert_eq!(
        calls,
        vec![AttemptCall::Send(SendPlan::Packet {
            destination,
            data: packed[16..].to_vec(),
        })]
    );
    let entry = router.outbound().get(&id).unwrap();
    assert_eq!(entry.state, MessageState::Sent);
    assert_eq!(entry.attempts, 1);

    let output = router
        .handle_event(
            &CoreEvent::PacketDeliveryConfirmed {
                packet_hash: [0xa1; 16],
            },
            &Facts::none(),
            &at(2_000),
            &plain(),
            None,
        )
        .unwrap();
    assert_eq!(
        output.events,
        vec![
            RouterEvent::MessageState {
                message_id: id,
                state: MessageState::Delivered
            },
            RouterEvent::PersistenceRequested,
        ]
    );
    assert!(!router.outbound().contains(&id));
}

#[test]
fn a_suspect_path_is_renewed_after_two_unproven_packets() {
    let mut router = router(RouterConfig::default());
    let mut queued = message(6);
    queued.method = DeliveryMethod::Opportunistic;
    let destination = queued.destination_hash;
    let id = enqueue(&mut router, queued);
    entry_mut(&mut router, &id).attempts = 2;
    let facts = AttemptFacts {
        core: Facts {
            has_path: true,
            ..Facts::none()
        },
        ..nothing()
    };
    let (_, calls) = tick(&mut router, 1_000, &facts);
    assert_eq!(calls, vec![AttemptCall::RenewPath { destination }]);
    assert_eq!(router.outbound().get(&id).unwrap().attempts, 3);
}

#[test]
fn a_deferred_resource_is_built_by_the_host() {
    let mut router = router(RouterConfig {
        defer_resource_builds: true,
        ..RouterConfig::default()
    });
    let queued = message_of(7, vec![7; 2_000], DeliveryMethod::Direct);
    let destination = queued.destination_hash;
    let packed = queued.pack();
    let id = enqueue(&mut router, queued);
    router.node_mut().direct_links.insert(destination, [9; 16]);
    let facts = AttemptFacts {
        link_active: true,
        ..nothing()
    };
    let (output, calls) = tick(&mut router, 1_000, &facts);
    assert_eq!(
        calls,
        vec![AttemptCall::PrepareResource { link_id: [9; 16] }]
    );
    assert_eq!(output.events[0], RouterEvent::ResourceBuildPending(id));
    assert_eq!(
        router.outbound().get(&id).unwrap().state,
        MessageState::Sending
    );
    let builds = router.take_resource_builds();
    assert_eq!(builds.len(), 1);
    assert_eq!(builds[0].message_id(), id);
    assert!(router.take_resource_builds().is_empty());

    assert_eq!(
        builds[0].build(Err(ResourceError::ResourceTooLarge)),
        Err(RouterError::Node(LxmfNodeError::Resource(
            ResourceError::ResourceTooLarge
        )))
    );
    let built = builds[0].build(Ok(())).expect("build");
    assert_eq!(
        built,
        BuiltResource {
            kind: BuiltKind::Delivery(PreparedLxmfSend {
                link_id: [9; 16],
                message_id: id,
                packed_len: packed.len(),
            }),
        }
    );
    assert_eq!(
        router.commit_resource_build(&built, true, Err(ResourceError::LinkClosed)),
        Err(RouterError::Node(LxmfNodeError::Resource(
            ResourceError::LinkClosed
        )))
    );
    router
        .commit_resource_build(&built, true, Ok([3; 32]))
        .expect("commit");
    assert_eq!(
        router
            .node()
            .resources
            .get(&[9; 16])
            .map(|pending| pending.message_id),
        Some(id)
    );
    let cancelled = router.cancel(&id).expect("cancel");
    assert_eq!(
        cancelled.calls,
        vec![CoreCall::CloseLink { link_id: [9; 16] }]
    );
}

fn upload_build(router: &mut LxmfRouter) -> PendingResourceBuild {
    router.push_upload_build(
        [1; 32],
        UploadSendParams {
            link_id: [2; 16],
            message_id: [1; 32],
            representation: PropagationUploadRepresentation::Resource,
        },
        vec![3; 400],
    );
    let mut builds = router.take_resource_builds();
    assert_eq!(builds.len(), 1);
    builds.remove(0)
}

fn mailbox_client() -> PropagationTransport {
    PropagationTransport::register(&DestinationInfo {
        hash: [8; 16],
        incoming: true,
        single: true,
        aspect: Aspect::Propagation,
        identity_hash: Some([2; 16]),
    })
    .expect("register")
}

#[test]
fn an_upload_build_is_built_as_an_upload() {
    let mut router = router(RouterConfig::default());
    let pending = upload_build(&mut router);
    assert_eq!(pending.message_id(), [1; 32]);
    assert_eq!(
        pending.build(Err(ResourceError::ResourceTooLarge)),
        Err(RouterError::PropagationTransport(
            PropagationTransportError::Resource(ResourceError::ResourceTooLarge)
        ))
    );
    assert_eq!(
        pending.build(Ok(())),
        Ok(BuiltResource {
            kind: BuiltKind::Upload(PreparedUpload {
                link_id: [2; 16],
                message_id: [1; 32],
                representation: PropagationUploadRepresentation::Resource,
            }),
        })
    );
}

#[test]
fn an_upload_needs_the_mailbox_client() {
    let mut router = router(RouterConfig::default());
    let pending = upload_build(&mut router);
    let built = pending.build(Ok(())).expect("build");
    assert_eq!(
        router.check_resource_build(&built, true),
        Err(RouterError::PropagationNodeUnavailable)
    );
    assert_eq!(
        router.commit_resource_build(&built, true, Ok([3; 32])),
        Err(RouterError::PropagationNodeUnavailable)
    );
    assert_eq!(
        router.commit_resource_build(&built, true, Err(ResourceError::LinkClosed)),
        Err(RouterError::PropagationNodeUnavailable)
    );
}

#[test]
fn a_built_upload_goes_to_the_mailbox_client() {
    let mut router = router(RouterConfig::default());
    let pending = upload_build(&mut router);
    let built = pending.build(Ok(())).expect("build");
    let mut client = mailbox_client();
    client.link_destinations.insert([2; 16], [9; 16]);
    router
        .enable_propagation_client(client)
        .expect("same identity");
    assert_eq!(
        router.commit_resource_build(&built, false, Ok([3; 32])),
        Err(RouterError::PropagationTransport(
            PropagationTransportError::LinkUnavailable
        ))
    );
    assert_eq!(
        router.commit_resource_build(&built, true, Err(ResourceError::LinkClosed)),
        Err(RouterError::PropagationTransport(
            PropagationTransportError::Resource(ResourceError::LinkClosed)
        ))
    );
    assert_eq!(
        router.check_resource_build(&built, false),
        Err(RouterError::PropagationTransport(
            PropagationTransportError::LinkUnavailable
        ))
    );
    assert_eq!(router.check_resource_build(&built, true), Ok(()));
    let output = router
        .commit_resource_build(&built, true, Ok([3; 32]))
        .expect("commit");
    assert!(output.events.is_empty());
    assert!(output.calls.is_empty());
    assert_eq!(
        router.commit_resource_build(&built, true, Ok([3; 32])),
        Err(RouterError::PropagationTransport(
            PropagationTransportError::UploadInProgress
        ))
    );
    let client = router.disable_propagation_client().expect("client");
    assert_eq!(client.active_upload(&[2; 16]), Some([1; 32]));
}

#[test]
fn a_local_message_is_unpacked_with_its_check() {
    let packed = message(6).pack();
    for len in 0..32 {
        assert_eq!(
            unpack_local(
                &packed[..len],
                SignatureCheck::Accepted,
                DeliveryMethod::Paper
            ),
            Err(RouterError::Message(MessageError::TooShort))
        );
    }
    let unpacked = unpack_local(&packed, SignatureCheck::Refused, DeliveryMethod::Paper)
        .expect("unpack");
    assert_eq!(unpacked.message_id, message(6).message_id);
    assert_eq!(unpacked.verification, Verification::Invalid);
    assert_eq!(unpacked.method, DeliveryMethod::Paper);
    assert_eq!(
        unpack_local(&packed, SignatureCheck::Failed, DeliveryMethod::Paper),
        Err(RouterError::Message(MessageError::Identity))
    );
    assert_eq!(
        unpack_local(
            &packed,
            SignatureCheck::Accepted,
            DeliveryMethod::Opportunistic
        ),
        Err(RouterError::Message(MessageError::WrongDestination))
    );
}

#[test]
fn the_second_copy_is_a_duplicate() {
    let mut router = router(RouterConfig::default());
    let incoming = message(8);
    let id = incoming.message_id;
    let now = NOW_UNIX.to_bits();
    let first = router.handle_inbound_message(incoming.clone(), now, &plain());
    assert_eq!(
        first,
        vec![RouterEvent::MessageReceived(Box::new(incoming.clone()))]
    );
    assert!(router.has_message(&id));
    let second = router.handle_inbound_message(incoming, now, &plain());
    assert_eq!(second, vec![RouterEvent::Duplicate(id)]);
}

#[test]
fn missing_and_refused_stamps_are_reported() {
    let mut router = router(RouterConfig {
        enforce_stamps: true,
        inbound_stamp_cost: Some(8),
        ..RouterConfig::default()
    });
    let bare = message(9);
    let id = bare.message_id;
    let now = NOW_UNIX.to_bits();
    assert_eq!(
        router.handle_inbound_message(bare.clone(), now, &plain()),
        vec![RouterEvent::InvalidStamp(id)]
    );
    let mut stamped = bare;
    stamped.set_stamp(vec![1; 32]).unwrap();
    let events = router.handle_inbound_message(stamped, now, &plain());
    let RouterEvent::InboundStampPending(request) = events[0] else {
        panic!("the stamp has to be checked");
    };
    let output = router.set_inbound_stamp_result(&request, false).unwrap();
    assert_eq!(output.events, vec![RouterEvent::InvalidStamp(id)]);
}

#[test]
fn a_reply_ticket_is_remembered_once() {
    let mut router = router(RouterConfig::default());
    let incoming = message(10);
    let ticket = Ticket {
        expires_unix: 1_700_100_000.0f64.to_bits(),
        secret: [4; 16],
    };
    let facts = MessageFacts {
        tickets: vec![Some(ticket)],
        ticket_current: true,
        ..plain()
    };
    let source = incoming.source_hash;
    let _ = router.handle_inbound_message(incoming.clone(), NOW_UNIX.to_bits(), &facts);
    assert_eq!(
        router.tickets().outbound_entries().get(&source),
        Some(&ticket)
    );
    checkpoint(&mut router);
    let _ = router.handle_inbound_message(incoming, NOW_UNIX.to_bits(), &facts);
    assert!(!router.persistence_dirty);
}

#[test]
fn a_delivered_ticket_is_noted() {
    let mut router = router(RouterConfig::default());
    let queued = message(11);
    let destination = queued.destination_hash;
    let ticket = Ticket {
        expires_unix: 1_700_100_000.0f64.to_bits(),
        secret: [4; 16],
    };
    router.tickets_mut().restore_inbound(destination, ticket);
    let id = enqueue(&mut router, queued);
    let facts = MessageFacts {
        tickets: vec![None, Some(ticket)],
        ..plain()
    };
    let _ = router.handle_node_event(
        LxmfNodeEvent::Delivered { message_id: id },
        &at(1_000),
        &facts,
    );
    assert_eq!(
        router.tickets().last_deliveries().get(&destination),
        Some(&NOW_UNIX.to_bits())
    );
}

#[test]
fn tickets_need_a_clock_and_room() {
    let mut router = router(RouterConfig {
        max_tickets: 1,
        ..RouterConfig::default()
    });
    assert!(matches!(
        router.issue_ticket_field(false, &[1; 16], TicketStore::default(), None),
        Err(RouterError::NoWallClock)
    ));
    let mut issued = TicketStore::default();
    issued.restore_inbound(
        [1; 16],
        Ticket {
            expires_unix: 1,
            secret: [2; 16],
        },
    );
    assert!(matches!(
        router.issue_ticket_field(true, &[1; 16], issued.clone(), Some(vec![0xc0])),
        Err(RouterError::QueueFull)
    ));
    let (field, _) = router
        .issue_ticket_field(true, &[1; 16], issued, None)
        .expect("nothing is due");
    assert_eq!(field, None);
}

#[test]
fn the_queue_is_bounded_and_holds_a_message_once() {
    let mut router = router(RouterConfig {
        max_outbound: 1,
        ..RouterConfig::default()
    });
    let first = message(12);
    let _ = enqueue(&mut router, first.clone());
    assert_eq!(
        router.enqueue(first, 1_000, false, None),
        Err(RouterError::Duplicate)
    );
    assert_eq!(
        router.enqueue(message(13), 1_000, false, None),
        Err(RouterError::QueueFull)
    );
}

#[test]
fn the_stamp_is_asked_for_before_sending() {
    let mut router = router(RouterConfig::default());
    let queued = message(14);
    router.insert_bounded_stamp_cost(queued.destination_hash, cost(NOW_UNIX, 12, true));
    let id = enqueue(&mut router, queued);
    let (output, calls) = tick(&mut router, 1_000, &nothing());
    assert!(calls.is_empty());
    assert_eq!(
        output.events[0],
        RouterEvent::StampPending(DeliveryStampRequest {
            message_id: id,
            target_cost: 12,
        })
    );
    assert_eq!(
        output.next_deadline_ms,
        Some(1_000 + PROCESSING_INTERVAL_MS)
    );
}

#[test]
fn the_deadline_is_the_earliest_of_all() {
    let mut router = router(RouterConfig::default());
    router.next_job_ms = 5_000;
    assert_eq!(router.next_deadline(None), 5_000);
    assert_eq!(router.next_deadline(Some(4_000)), 4_000);
    let id = enqueue(&mut router, message(15));
    assert_eq!(router.next_deadline(Some(4_000)), 1_000);
    entry_mut(&mut router, &id).next_attempt_ms = 4_500;
    assert_eq!(router.next_deadline(Some(9_000)), 4_500);
    assert_eq!(router.tick(4_999), None);
}

#[test]
fn messages_are_created_from_the_local_destination() {
    let router = router(RouterConfig::default());
    let made = router
        .create_message(
            true,
            Some([1; 64]),
            [9; 16],
            NOW_UNIX.to_bits(),
            b"t".to_vec(),
            b"c".to_vec(),
            Vec::new(),
            DeliveryMethod::Direct,
        )
        .expect("message");
    assert_eq!(made.source_hash, [1; 16]);
    assert_eq!(made.timestamp, NOW_UNIX.to_bits());
    assert_eq!(
        router.create_message(
            false,
            None,
            [9; 16],
            NOW_UNIX.to_bits(),
            Vec::new(),
            Vec::new(),
            Vec::new(),
            DeliveryMethod::Direct,
        ),
        Err(RouterError::NotFound)
    );
}

#[test]
fn the_propagation_client_must_share_the_identity() {
    let mut router = router(RouterConfig::default());
    let info = DestinationInfo {
        hash: [5; 16],
        incoming: true,
        single: true,
        aspect: Aspect::Propagation,
        identity_hash: Some([6; 16]),
    };
    let stranger = PropagationTransport::register(&info).unwrap();
    assert_eq!(
        router.enable_propagation_client(stranger),
        Err(RouterError::IdentityMismatch)
    );
    let mut own = PropagationTransport::register(&DestinationInfo {
        identity_hash: Some([2; 16]),
        ..info
    })
    .unwrap();
    own.link_destinations.insert([7; 16], [8; 16]);
    router.enable_propagation_client(own).expect("same identity");
    assert!(router.owns_link(&[7; 16]));
    assert!(router.disable_propagation_client().is_some());
    assert!(!router.owns_link(&[7; 16]));
}

#[test]
fn nothing_stored_restores_nothing() {
    let mut router = populated_router(RouterConfig::default());
    let before = router.snapshot().unwrap();
    router.restore(Ok(None)).expect("nothing to restore");
    assert_eq!(router.snapshot().unwrap(), before);
    assert_eq!(
        router.restore(Err(StorageError::Corrupt)),
        Err(RouterError::Storage(StorageError::Corrupt))
    );
    router.config.max_snapshot_bytes = before.len() - 1;
    assert_eq!(
        router.restore(Ok(Some(before))),
        Err(RouterError::CorruptSnapshot)
    );
}

#[test]
fn propagation_stamps_need_a_prepared_message() {
    let mut router = router(RouterConfig::default());
    let stamp = [1; STAMP_SIZE];
    assert_eq!(
        router.set_outbound_propagation_stamp(&[0; 32], stamp, 1, None),
        Err(RouterError::NotFound)
    );
    let direct = enqueue(&mut router, message(16));
    assert_eq!(
        router.set_outbound_propagation_stamp(&direct, stamp, 1, None),
        Err(RouterError::UnsupportedMethod)
    );
    let mut propagated = message(17);
    propagated.method = DeliveryMethod::Propagated;
    let id = propagated.message_id;
    let _ = router.enqueue(propagated, 1_000, true, None).unwrap();
    assert_eq!(
        router.set_outbound_propagation_stamp(&id, stamp, 1, None),
        Err(RouterError::PropagationStampUnavailable)
    );
}

#[test]
fn no_part_and_no_extension_of_a_snapshot_is_restored() {
    let original = populated_router(RouterConfig::default());
    let bytes = original.snapshot().expect("snapshot");
    let mut restored = router(RouterConfig::default());
    let before = restored.snapshot().expect("snapshot");
    for len in 0..bytes.len() {
        assert_eq!(
            restored.restore(Ok(Some(bytes[..len].to_vec()))),
            Err(RouterError::CorruptSnapshot)
        );
    }
    let mut longer = bytes.clone();
    longer.push(0);
    assert_eq!(
        restored.restore(Ok(Some(longer))),
        Err(RouterError::CorruptSnapshot)
    );
    assert_eq!(restored.snapshot().expect("snapshot"), before);
    restored.restore(Ok(Some(bytes))).expect("restore");
}

#[test]
fn ticket_fields_are_picked_in_order() {
    let mut message = message(11);
    message.fields = vec![
        (FIELD_TICKET, vec![1]),
        (FIELD_TICKET + 1, vec![2]),
        (FIELD_TICKET, vec![3, 3]),
    ];
    assert_eq!(ticket_values(&message), vec![vec![1], vec![3, 3]]);
    message.fields.clear();
    assert!(ticket_values(&message).is_empty());
}

#[test]
fn a_report_concludes_only_a_queued_message() {
    let mut router = router(RouterConfig::default());
    let queued = message(12);
    let id = queued.message_id;
    let proof = CoreEvent::PacketDeliveryConfirmed {
        packet_hash: [4; 16],
    };
    assert_eq!(router.concluded(&proof), None);
    router.node_mut().packet_receipts.insert([4; 16], id);
    assert_eq!(router.concluded(&proof), None);
    enqueue(&mut router, queued);
    assert_eq!(router.concluded(&proof), Some(id));
    assert_eq!(router.concluded(&CoreEvent::Other), None);
}
