//! The delivery adapter.
use leviculum_lxmf::constants::DESTINATION_LENGTH;
use leviculum_lxmf::message::SignatureCheck;
use leviculum_lxmf::node::{
    PendingLinkPacket, PendingResource, SendPlan, RESOURCE_MAX_EFFICIENT_SIZE,
};
use leviculum_lxmf::transport::{
    Aspect, CoreCall, CoreEvent, DeliveryError, DestinationInfo, Facts, LinkCloseReason,
    ResourceError,
};
use leviculum_lxmf::{
    DeliveryFailure, DeliveryMethod, DeliveryRepresentation, DirectLinkState, InboundRejection,
    IncomingResourceTransfer, LxmfNode, LxmfNodeConfig, LxmfNodeError, LxmfNodeEvent, Message,
    MessageError, PreparedLxmfSend, SubmissionId, Verification,
};

fn local(seed: u8) -> DestinationInfo {
    DestinationInfo {
        hash: [seed; 16],
        incoming: true,
        single: true,
        aspect: Aspect::Delivery,
        identity_hash: Some([seed ^ 0xff; 16]),
    }
}

fn peer(seed: u8) -> LxmfNode {
    LxmfNode::register(&local(seed), LxmfNodeConfig::default()).expect("register")
}

fn message(
    destination: [u8; 16],
    source: [u8; 16],
    method: DeliveryMethod,
    content_len: usize,
) -> Message {
    Message::create(
        destination,
        source,
        Some([0x5a; 64]),
        1_700_000_000.0f64.to_bits(),
        b"title".to_vec(),
        vec![b'x'; content_len],
        Vec::new(),
        method,
    )
    .expect("message")
}

fn verified() -> Facts {
    Facts {
        signature: SignatureCheck::Accepted,
        ..Facts::none()
    }
}

/// A sender with a live direct link to a receiver that carries it too.
fn linked(link_id: [u8; 16]) -> (LxmfNode, LxmfNode) {
    let mut sender = peer(10);
    let mut receiver = peer(90);
    let facts = Facts {
        has_path: true,
        identity_known: true,
        new_link: link_id,
        ..Facts::none()
    };
    assert_eq!(
        sender.direct_link_call([90; 16], false, &facts),
        Some(CoreCall::Connect {
            destination: [90; 16]
        })
    );
    let (state, _) = sender
        .ensure_direct_link([90; 16], false, &facts)
        .expect("ensure direct link");
    assert_eq!(state, DirectLinkState::Started(link_id));
    let established = CoreEvent::LinkEstablished {
        link_id,
        is_initiator: true,
    };
    let output = sender
        .handle_event(&established, &Facts::none())
        .expect("establish at the sender");
    assert_eq!(
        output.events,
        vec![LxmfNodeEvent::DirectLinkEstablished {
            destination: Some([90; 16]),
            link_id,
            is_initiator: true,
        }]
    );
    let accepted = CoreEvent::LinkEstablished {
        link_id,
        is_initiator: false,
    };
    let at_receiver = Facts {
        link_destination: Some([90; 16]),
        ..Facts::none()
    };
    receiver
        .handle_event(&accepted, &at_receiver)
        .expect("establish at the receiver");
    assert!(receiver.owns_link(&link_id));
    (sender, receiver)
}

#[test]
fn opportunistic_node_event_decodes_and_verifies() {
    let mut lxmf = peer(1);
    let msg = message(
        lxmf.delivery_destination_hash(),
        [2; 16],
        DeliveryMethod::Opportunistic,
        5,
    );
    let event = CoreEvent::PacketReceived {
        destination: lxmf.delivery_destination_hash(),
        data: msg.on_air().expect("opportunistic on-air"),
    };
    let output = lxmf.handle_event(&event, &verified()).expect("handle");
    assert!(matches!(
        output.events.as_slice(),
        [LxmfNodeEvent::MessageReceived(received)]
            if received.message_id == msg.message_id
                && received.method == DeliveryMethod::Opportunistic
                && received.verification == Verification::Valid
    ));
}

#[test]
fn direct_raw_link_event_decodes_full_packed_message() {
    let mut lxmf = peer(1);
    let link_id = [0x44; 16];
    lxmf.lxmf_links.insert(link_id, ());
    let msg = message(
        lxmf.delivery_destination_hash(),
        [2; 16],
        DeliveryMethod::Direct,
        5,
    );
    let event = CoreEvent::LinkDataReceived {
        link_id,
        data: msg.pack(),
    };
    let output = lxmf.handle_event(&event, &verified()).expect("handle");
    assert!(matches!(
        output.events.as_slice(),
        [LxmfNodeEvent::MessageReceived(received)]
            if received.message_id == msg.message_id
                && received.method == DeliveryMethod::Direct
                && received.verification == Verification::Valid
    ));
}

#[test]
fn link_ownership_is_removed_when_the_link_closes() {
    let mut lxmf = peer(1);
    let link_id = [0x45; 16];

    assert!(!lxmf.owns_link(&link_id));
    lxmf.lxmf_links.insert(link_id, ());
    assert!(lxmf.owns_link(&link_id));

    let _ = lxmf.handle_link_closed(link_id, LinkCloseReason::Normal);
    assert!(!lxmf.owns_link(&link_id));
}

#[test]
fn split_resource_is_reassembled_before_decode() {
    let mut lxmf = peer(1);
    let link_id = [0x55; 16];
    lxmf.lxmf_links.insert(link_id, ());
    let msg = message(
        lxmf.delivery_destination_hash(),
        [2; 16],
        DeliveryMethod::Direct,
        700,
    );
    let packed = msg.pack();
    let split = packed.len() / 2;
    let first = CoreEvent::ResourceCompleted {
        link_id,
        resource_hash: [1; 32],
        data: packed[..split].to_vec(),
        is_sender: false,
        segment_index: 1,
        total_segments: 2,
    };
    let second = CoreEvent::ResourceCompleted {
        link_id,
        resource_hash: [2; 32],
        data: packed[split..].to_vec(),
        is_sender: false,
        segment_index: 2,
        total_segments: 2,
    };

    let first_output = lxmf
        .handle_event(&first, &verified())
        .expect("first segment");
    assert!(first_output.events.is_empty());
    let second_output = lxmf
        .handle_event(&second, &verified())
        .expect("second segment");
    assert!(matches!(
        second_output.events.as_slice(),
        [LxmfNodeEvent::MessageReceived(received)] if received.message_id == msg.message_id
    ));
}

#[test]
fn representation_matches_python_thresholds_and_fallback() {
    let lxmf = peer(1);
    let small = message(
        lxmf.delivery_destination_hash(),
        [2; 16],
        DeliveryMethod::Opportunistic,
        1,
    );
    assert_eq!(
        LxmfNode::representation(&small).expect("small"),
        DeliveryRepresentation::OpportunisticPacket
    );

    let fallback = message(
        lxmf.delivery_destination_hash(),
        [2; 16],
        DeliveryMethod::Opportunistic,
        310,
    );
    assert_eq!(
        LxmfNode::representation(&fallback).expect("fallback"),
        DeliveryRepresentation::DirectPacket
    );

    let large = message(
        lxmf.delivery_destination_hash(),
        [2; 16],
        DeliveryMethod::Direct,
        700,
    );
    assert_eq!(
        LxmfNode::representation(&large).expect("large"),
        DeliveryRepresentation::DirectResource
    );
}

#[test]
fn out_of_order_resource_is_rejected_and_discarded() {
    let mut lxmf = peer(1);
    let link_id = [0x66; 16];
    lxmf.lxmf_links.insert(link_id, ());
    let event = CoreEvent::ResourceCompleted {
        link_id,
        resource_hash: [3; 32],
        data: vec![1, 2, 3],
        is_sender: false,
        segment_index: 2,
        total_segments: 3,
    };
    let output = lxmf.handle_event(&event, &verified()).expect("handle");
    assert!(matches!(
        output.events.as_slice(),
        [LxmfNodeEvent::InboundRejected {
            method: DeliveryMethod::Direct,
            reason: InboundRejection::ResourceSequence,
        }]
    ));
}

#[test]
fn core_raw_packet_timeout_fails_direct_delivery_once() {
    let mut lxmf = peer(1);
    let link_id = [0x77; 16];
    let message_id = [0xa5; 32];
    let packet_hash = [0x33; 32];
    lxmf.link_packet_receipts.insert(
        packet_hash,
        PendingLinkPacket {
            message_id,
            link_id,
        },
    );
    let event = CoreEvent::LinkDeliveryFailed {
        link_id,
        packet_hash,
    };
    let output = lxmf.handle_event(&event, &Facts::none()).expect("handle");
    assert!(matches!(
        output.events.as_slice(),
        [LxmfNodeEvent::DeliveryFailed {
            message_id: id,
            reason: DeliveryFailure::DirectPacketTimeout,
        }] if id == &message_id
    ));
    assert!(lxmf
        .handle_event(&event, &Facts::none())
        .expect("repeat handle")
        .events
        .is_empty());
}

/// The share of the whole that the portion stands for.
fn overall(lxmf: &LxmfNode, event: &CoreEvent) -> u32 {
    let portion = lxmf.portion(event).expect("a portion");
    let progress = f32::from_bits(portion.progress) as f64;
    let done = portion.completed_size as f64 + portion.current_size as f64 * progress;
    ((done / portion.total_size as f64) as f32).to_bits()
}

#[test]
fn split_resource_sender_progress_is_aggregated_across_segments() {
    let mut lxmf = peer(1);
    let link_id = [0x44; 16];
    let message_id = [0x55; 32];
    let first_hash = [0x66; 32];
    let second_hash = [0x77; 32];
    let segment_size = RESOURCE_MAX_EFFICIENT_SIZE as u64;
    lxmf.resources.insert(
        link_id,
        PendingResource {
            message_id,
            current_resource_hash: first_hash,
            completed_size: 0,
            current_size: segment_size,
            total_size: segment_size * 2,
        },
    );

    let event = CoreEvent::ResourceProgress {
        link_id,
        resource_hash: first_hash,
        progress: 0.8f32.to_bits(),
        transfer_size: segment_size,
        data_size: segment_size,
        is_sender: true,
    };
    let facts = Facts {
        overall: overall(&lxmf, &event),
        ..Facts::none()
    };
    let first = lxmf
        .handle_event(&event, &facts)
        .expect("first segment progress");
    assert!(matches!(
        first.events.as_slice(),
        [LxmfNodeEvent::Progress { message_id: id, progress }]
            if *id == message_id && (f32::from_bits(*progress) - 0.4).abs() < 0.0001
    ));

    let event = CoreEvent::ResourceProgress {
        link_id,
        resource_hash: second_hash,
        progress: 0.2f32.to_bits(),
        transfer_size: segment_size,
        data_size: segment_size,
        is_sender: true,
    };
    let facts = Facts {
        overall: overall(&lxmf, &event),
        ..Facts::none()
    };
    let second = lxmf
        .handle_event(&event, &facts)
        .expect("second segment progress");
    assert!(matches!(
        second.events.as_slice(),
        [LxmfNodeEvent::Progress { message_id: id, progress }]
            if *id == message_id && (f32::from_bits(*progress) - 0.6).abs() < 0.0001
    ));
}

#[test]
fn incoming_resource_transfers_are_tracked_until_failure() {
    let mut lxmf = peer(1);
    let link_id = [0x81; 16];
    let resource_hash = [0x82; 32];
    lxmf.lxmf_links.insert(link_id, ());

    let _ = lxmf
        .handle_event(
            &CoreEvent::ResourceTransferStarted {
                link_id,
                resource_hash,
                is_sender: false,
            },
            &Facts::none(),
        )
        .expect("start incoming resource");
    assert_eq!(lxmf.incoming_resource_count(), 1);

    let _ = lxmf
        .handle_event(
            &CoreEvent::ResourceProgress {
                link_id,
                resource_hash,
                progress: 0.25f32.to_bits(),
                transfer_size: 1_024,
                data_size: 2_048,
                is_sender: false,
            },
            &Facts::none(),
        )
        .expect("update incoming resource");
    assert_eq!(
        lxmf.incoming_resource_transfers()
            .iter()
            .map(|(_, transfer)| *transfer)
            .collect::<Vec<_>>(),
        vec![IncomingResourceTransfer {
            link_id,
            resource_hash,
            transfer_size: 1_024,
            data_size: 2_048,
            progress: 0.25f32.to_bits(),
        }]
    );

    let _ = lxmf
        .handle_event(
            &CoreEvent::ResourceFailed {
                link_id,
                resource_hash,
                error: ResourceError::Timeout,
                is_sender: false,
            },
            &Facts::none(),
        )
        .expect("fail incoming resource");
    assert_eq!(lxmf.incoming_resource_count(), 0);
}

#[test]
fn failed_outgoing_resource_closes_its_direct_link_before_retry() {
    let link_id = [0x11; 16];
    let (mut sender, _) = linked(link_id);
    let message_id = [0x91; 32];
    let resource_hash = [0x92; 32];
    sender.resources.insert(
        link_id,
        PendingResource {
            message_id,
            current_resource_hash: resource_hash,
            completed_size: 0,
            current_size: 1,
            total_size: 1,
        },
    );
    let event = CoreEvent::ResourceFailed {
        link_id,
        resource_hash,
        error: ResourceError::Timeout,
        is_sender: true,
    };
    assert_eq!(
        sender.call_for(&event, &Facts::none()),
        Some(CoreCall::CloseLink { link_id })
    );
    let output = sender
        .handle_event(&event, &Facts::none())
        .expect("fail outgoing Resource");
    assert!(matches!(
        output.events.as_slice(),
        [LxmfNodeEvent::DeliveryFailed {
            message_id: id,
            reason: DeliveryFailure::Resource(ResourceError::Timeout),
        }] if *id == message_id
    ));
}

#[test]
fn receiver_cancelled_resource_keeps_the_direct_link_reusable() {
    let link_id = [0x12; 16];
    let (mut sender, _) = linked(link_id);
    let message_id = [0x93; 32];
    let resource_hash = [0x94; 32];
    sender.resources.insert(
        link_id,
        PendingResource {
            message_id,
            current_resource_hash: resource_hash,
            completed_size: 0,
            current_size: 1,
            total_size: 1,
        },
    );
    let event = CoreEvent::ResourceFailed {
        link_id,
        resource_hash,
        error: ResourceError::Cancelled,
        is_sender: true,
    };
    assert_eq!(sender.call_for(&event, &Facts::none()), None);
    let output = sender
        .handle_event(&event, &Facts::none())
        .expect("reject outgoing Resource");
    assert!(matches!(
        output.events.as_slice(),
        [LxmfNodeEvent::DeliveryFailed {
            message_id: id,
            reason: DeliveryFailure::Resource(ResourceError::Cancelled),
        }] if *id == message_id
    ));
    assert_eq!(sender.direct_link(&[90; 16]), Some(link_id));
}

#[test]
fn nodecore_round_trip_opportunistic_direct_packet_and_resource() {
    let link_id = [0x13; 16];
    let (mut sender, mut receiver) = linked(link_id);

    let opportunistic = message([90; 16], [10; 16], DeliveryMethod::Opportunistic, 12);
    let plan = sender.send(&opportunistic, false).expect("opportunistic");
    let SendPlan::Packet { destination, data } = plan else {
        panic!("an opportunistic message goes as one packet");
    };
    let sent = sender.record_packet(opportunistic.message_id, [0xaa; 16]);
    assert!(matches!(
        sent.events.as_slice(),
        [LxmfNodeEvent::Submitted {
            method: DeliveryMethod::Opportunistic,
            submission: SubmissionId::Packet(_),
            ..
        }]
    ));
    let received = receiver
        .handle_event(&CoreEvent::PacketReceived { destination, data }, &verified())
        .expect("receive");
    assert_eq!(
        received.events,
        vec![LxmfNodeEvent::MessageReceived(opportunistic.clone())]
    );
    let proven = sender
        .handle_event(
            &CoreEvent::PacketDeliveryConfirmed {
                packet_hash: [0xaa; 16],
            },
            &Facts::none(),
        )
        .expect("proof");
    assert_eq!(
        proven.events,
        vec![LxmfNodeEvent::Delivered {
            message_id: opportunistic.message_id
        }]
    );

    let direct = message([90; 16], [10; 16], DeliveryMethod::Direct, 12);
    let SendPlan::LinkPacket { link_id: on, data } = sender.send(&direct, true).expect("direct")
    else {
        panic!("a short direct message goes as one link packet");
    };
    assert_eq!(on, link_id);
    let _ = sender.record_link_packet(on, direct.message_id, [0xbb; 32]);
    let received = receiver
        .handle_event(&CoreEvent::LinkDataReceived { link_id, data }, &verified())
        .expect("receive");
    assert_eq!(
        received.events,
        vec![LxmfNodeEvent::MessageReceived(direct.clone())]
    );
    let proven = sender
        .handle_event(
            &CoreEvent::LinkDeliveryConfirmed {
                link_id,
                packet_hash: [0xbb; 32],
            },
            &Facts::none(),
        )
        .expect("proof");
    assert_eq!(
        proven.events,
        vec![LxmfNodeEvent::Delivered {
            message_id: direct.message_id
        }]
    );

    let resource = message([90; 16], [10; 16], DeliveryMethod::Direct, 1_200);
    assert_eq!(
        LxmfNode::representation(&resource).expect("representation"),
        DeliveryRepresentation::DirectResource
    );
    let SendPlan::Resource { data, .. } = sender.send(&resource, true).expect("resource") else {
        panic!("a long direct message goes as a Resource");
    };
    let _ = sender.record_resource_submission(link_id, resource.message_id, [0xcc; 32], data.len());
    let received = receiver
        .handle_event(
            &CoreEvent::ResourceCompleted {
                link_id,
                resource_hash: [0xcc; 32],
                data,
                is_sender: false,
                segment_index: 1,
                total_segments: 1,
            },
            &verified(),
        )
        .expect("receive");
    assert!(matches!(
        received.events.as_slice(),
        [LxmfNodeEvent::MessageReceived(received)]
            if received.message_id == resource.message_id && received.content.len() == 1_200
    ));
    let completed = sender
        .handle_event(
            &CoreEvent::ResourceCompleted {
                link_id,
                resource_hash: [0xcc; 32],
                data: Vec::new(),
                is_sender: true,
                segment_index: 1,
                total_segments: 1,
            },
            &Facts::none(),
        )
        .expect("complete");
    assert_eq!(
        completed.events,
        vec![LxmfNodeEvent::Delivered {
            message_id: resource.message_id
        }]
    );
}

#[test]
fn opportunistic_and_direct_packet_submit_one_packet_each() {
    let link_id = [0x14; 16];
    let (mut sender, _) = linked(link_id);
    let opportunistic = message([90; 16], [10; 16], DeliveryMethod::Opportunistic, 250);
    assert_eq!(
        LxmfNode::representation(&opportunistic).expect("representation"),
        DeliveryRepresentation::OpportunisticPacket
    );
    assert_eq!(
        sender.send(&opportunistic, true).expect("opportunistic"),
        SendPlan::Packet {
            destination: [90; 16],
            data: opportunistic.pack()[DESTINATION_LENGTH..].to_vec(),
        }
    );

    let direct = message([90; 16], [10; 16], DeliveryMethod::Direct, 300);
    assert_eq!(
        LxmfNode::representation(&direct).expect("representation"),
        DeliveryRepresentation::DirectPacket
    );
    assert_eq!(
        sender.send(&direct, true).expect("direct"),
        SendPlan::LinkPacket {
            link_id,
            data: direct.pack(),
        }
    );
}

#[test]
fn phased_resource_send_delivers_what_the_composed_one_does() {
    let link_id = [0x15; 16];
    let (mut sender, _) = linked(link_id);
    let resource = message([90; 16], [10; 16], DeliveryMethod::Direct, 1_200);
    assert_eq!(
        LxmfNode::representation(&resource).expect("representation"),
        DeliveryRepresentation::DirectResource
    );
    let params = sender
        .resource_send_params(&resource, true, Ok(()))
        .expect("capture");
    assert_eq!(
        sender.resource_send_params(&resource, true, Err(ResourceError::Other)),
        Err(LxmfNodeError::Resource(ResourceError::Other))
    );
    assert_eq!(
        LxmfNode::prepare_resource_send(
            &params,
            &resource.pack(),
            Err(ResourceError::ResourceTooLarge)
        ),
        Err(LxmfNodeError::Resource(ResourceError::ResourceTooLarge))
    );
    assert_eq!(params.link_id, link_id);
    assert_eq!(params.message_id, resource.message_id);
    let prepared =
        LxmfNode::prepare_resource_send(&params, &resource.pack(), Ok(())).expect("build");
    assert_eq!(
        prepared,
        PreparedLxmfSend {
            link_id,
            message_id: resource.message_id,
            packed_len: resource.pack().len(),
        }
    );
    let mut composed = sender.clone();
    let sent = sender
        .commit_resource_send(&prepared, Ok([0xdd; 32]))
        .expect("commit");
    let SendPlan::Resource { data, .. } = composed.send(&resource, true).expect("composed") else {
        panic!("a long direct message goes as a Resource");
    };
    let same = composed.record_resource_submission(
        link_id,
        resource.message_id,
        [0xdd; 32],
        data.len(),
    );
    assert_eq!(sent.events, same.events);
    assert_eq!(
        sender.resources.get(&link_id),
        composed.resources.get(&link_id)
    );
    assert!(matches!(
        sender.commit_resource_send(&prepared, Err(ResourceError::LinkStateChanged)),
        Err(LxmfNodeError::Resource(ResourceError::LinkStateChanged))
    ));
}

#[test]
fn direct_link_uses_identity_cached_by_core_without_lxmf_peer_state() {
    let mut sender = peer(30);
    let unknown = Facts {
        has_path: true,
        ..Facts::none()
    };
    assert!(matches!(
        sender.ensure_direct_link([120; 16], false, &unknown),
        Err(LxmfNodeError::UnknownPeer)
    ));
    let cached = Facts {
        has_path: true,
        identity_known: true,
        new_link: [0x16; 16],
        ..Facts::none()
    };
    let (state, _) = sender
        .ensure_direct_link([120; 16], false, &cached)
        .expect("start direct link from the cached identity");
    assert!(matches!(state, DirectLinkState::Started(_)));
    let (state, _) = sender
        .ensure_direct_link([120; 16], false, &cached)
        .expect("observe the pending link");
    assert_eq!(state, DirectLinkState::Connecting([0x16; 16]));
}

#[test]
fn nodecore_direct_resources_are_full_duplex_on_one_link() {
    let link_id = [0x17; 16];
    let (mut a, mut b) = linked(link_id);
    // The link is usable from the far end once the near end is identified.
    let identified = b
        .handle_event(
            &CoreEvent::LinkIdentified {
                link_id,
                peer: [10; 16],
            },
            &Facts::none(),
        )
        .expect("identify");
    assert_eq!(
        identified.events,
        vec![LxmfNodeEvent::DirectLinkEstablished {
            destination: Some([10; 16]),
            link_id,
            is_initiator: false,
        }]
    );
    // Both ends address the one link.
    assert_eq!(a.direct_link(&[90; 16]), Some(link_id));
    assert_eq!(a.direct_link(&[90; 16]), b.direct_link(&[10; 16]));

    let large = message([90; 16], [10; 16], DeliveryMethod::Direct, 12_000);
    let small = message([10; 16], [90; 16], DeliveryMethod::Direct, 700);
    assert_eq!(
        LxmfNode::representation(&large).expect("large representation"),
        DeliveryRepresentation::DirectResource
    );
    assert_eq!(
        LxmfNode::representation(&small).expect("small representation"),
        DeliveryRepresentation::DirectResource
    );
    for (from, msg) in [(&mut a, &large), (&mut b, &small)] {
        let SendPlan::Resource {
            link_id: on, data, ..
        } = from.send(msg, true).expect("send")
        else {
            panic!("a long direct message goes as a Resource");
        };
        assert_eq!(on, link_id);
        assert_eq!(data, msg.pack());
        let _ = from.record_resource_submission(on, msg.message_id, [0xee; 32], data.len());
    }
    for (to, msg, content_len) in [(&mut b, &large, 12_000), (&mut a, &small, 700)] {
        let received = to
            .handle_event(
                &CoreEvent::ResourceCompleted {
                    link_id,
                    resource_hash: [0xef; 32],
                    data: msg.pack(),
                    is_sender: false,
                    segment_index: 1,
                    total_segments: 1,
                },
                &verified(),
            )
            .expect("receive");
        assert!(received.events.iter().any(|event| matches!(
            event,
            LxmfNodeEvent::MessageReceived(received)
                if received.message_id == msg.message_id
                    && received.content.len() == content_len
        )));
    }
    for (from, msg) in [(&mut a, &large), (&mut b, &small)] {
        let proved = CoreEvent::ResourceCompleted {
            link_id,
            resource_hash: [0xee; 32],
            data: Vec::new(),
            is_sender: true,
            segment_index: 1,
            total_segments: 1,
        };
        assert_eq!(from.concluded(&proved), Some(msg.message_id));
        let delivered = from.handle_event(&proved, &Facts::none()).expect("proof");
        assert_eq!(
            delivered.events,
            vec![LxmfNodeEvent::Delivered {
                message_id: msg.message_id
            }]
        );
        assert_eq!(from.concluded(&proved), None);
    }
}

#[test]
fn registration_wants_a_delivery_destination() {
    for wrong in [
        DestinationInfo {
            incoming: false,
            ..local(1)
        },
        DestinationInfo {
            single: false,
            ..local(1)
        },
        DestinationInfo {
            aspect: Aspect::Propagation,
            ..local(1)
        },
    ] {
        assert!(LxmfNode::register(&wrong, LxmfNodeConfig::default()).is_err());
    }
    assert!(LxmfNode::attach(None, LxmfNodeConfig::default()).is_err());
    let attached = LxmfNode::attach(Some(&local(3)), LxmfNodeConfig::default()).unwrap();
    assert_eq!(attached.delivery_destination_hash(), [3; 16]);
}

#[test]
fn messages_for_others_and_broken_ones_are_rejected() {
    let mut lxmf = peer(1);
    let link_id = [0x44; 16];
    lxmf.lxmf_links.insert(link_id, ());
    let strange = message([9; 16], [2; 16], DeliveryMethod::Direct, 5);
    let output = lxmf
        .handle_event(
            &CoreEvent::LinkDataReceived {
                link_id,
                data: strange.pack(),
            },
            &verified(),
        )
        .unwrap();
    assert_eq!(
        output.events,
        vec![LxmfNodeEvent::InboundRejected {
            method: DeliveryMethod::Direct,
            reason: InboundRejection::WrongDestination,
        }]
    );
    let output = lxmf
        .handle_event(
            &CoreEvent::PacketReceived {
                destination: [1; 16],
                data: vec![1, 2, 3],
            },
            &verified(),
        )
        .unwrap();
    assert_eq!(
        output.events,
        vec![LxmfNodeEvent::InboundRejected {
            method: DeliveryMethod::Opportunistic,
            reason: InboundRejection::Message(MessageError::TooShort),
        }]
    );
}

#[test]
fn oversized_advertisements_are_refused() {
    let mut lxmf = LxmfNode::register(
        &local(1),
        LxmfNodeConfig {
            max_incoming_resource_size: Some(1_000),
            ..LxmfNodeConfig::default()
        },
    )
    .unwrap();
    let link_id = [0x44; 16];
    lxmf.lxmf_links.insert(link_id, ());
    let offer = |data_size: u64| CoreEvent::ResourceAdvertised {
        link_id,
        resource_hash: [4; 32],
        transfer_size: data_size,
        data_size,
    };
    assert_eq!(
        lxmf.call_for(&offer(1_000), &Facts::none()),
        Some(CoreCall::AcceptResource { link_id })
    );
    assert_eq!(
        lxmf.call_for(&offer(1_001), &Facts::none()),
        Some(CoreCall::RejectResource { link_id })
    );
    let output = lxmf.handle_event(&offer(1_001), &Facts::none()).unwrap();
    assert_eq!(
        output.events,
        vec![LxmfNodeEvent::InboundRejected {
            method: DeliveryMethod::Direct,
            reason: InboundRejection::ResourceTooLarge,
        }]
    );
}

#[test]
fn a_closed_link_loses_what_was_on_it() {
    let link_id = [0x18; 16];
    let (mut sender, _) = linked(link_id);
    let _ = sender.record_link_packet(link_id, [1; 32], [2; 32]);
    let events = sender.handle_link_closed(link_id, LinkCloseReason::PeerClosed);
    assert_eq!(
        events,
        vec![LxmfNodeEvent::DeliveryFailed {
            message_id: [1; 32],
            reason: DeliveryFailure::LinkClosed(LinkCloseReason::PeerClosed),
        }]
    );
    assert_eq!(sender.direct_link(&[90; 16]), None);
}

#[test]
fn a_lost_single_packet_fails_once() {
    let mut lxmf = peer(1);
    let _ = lxmf.record_packet([1; 32], [2; 16]);
    let event = CoreEvent::DeliveryFailed {
        packet_hash: [2; 16],
        error: DeliveryError::Timeout,
    };
    let output = lxmf.handle_event(&event, &Facts::none()).unwrap();
    assert_eq!(
        output.events,
        vec![LxmfNodeEvent::DeliveryFailed {
            message_id: [1; 32],
            reason: DeliveryFailure::Opportunistic(DeliveryError::Timeout),
        }]
    );
    assert!(lxmf
        .handle_event(&event, &Facts::none())
        .unwrap()
        .events
        .is_empty());
}

#[test]
fn cancelling_names_the_links_to_close() {
    let link_id = [0x19; 16];
    let (mut sender, _) = linked(link_id);
    let _ = sender.record_resource_submission(link_id, [1; 32], [2; 32], 10);
    let _ = sender.record_packet([1; 32], [3; 16]);
    assert_eq!(sender.cancel_outbound(&[1; 32]), vec![link_id]);
    assert!(sender.cancel_outbound(&[1; 32]).is_empty());
    assert!(sender.packet_receipts.is_empty());
}

#[test]
fn unsupported_methods_are_not_sent() {
    let mut sender = peer(1);
    let paper = message([9; 16], [1; 16], DeliveryMethod::Paper, 5);
    assert!(matches!(
        sender.send(&paper, true),
        Err(LxmfNodeError::UnsupportedMethod)
    ));
    let direct = message([9; 16], [1; 16], DeliveryMethod::Direct, 5);
    assert!(matches!(
        sender.send(&direct, true),
        Err(LxmfNodeError::DirectLinkUnavailable)
    ));
}
