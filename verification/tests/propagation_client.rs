//! The propagation-mailbox client.
use leviculum_lxmf::constants::LINK_PACKET_MAX_CONTENT;
use leviculum_lxmf::msgpack;
use leviculum_lxmf::propagation_client::{
    upload_representation, PendingRequest, PendingUpload, PendingUploadTransfer, RequestStep,
    SentRequest,
};
use leviculum_lxmf::transport::{
    Aspect, CoreCall, CoreEvent, DestinationInfo, Facts, LinkCloseReason, RequestError,
    ResourceError,
};
use leviculum_lxmf::{
    PreparedUpload, PropagationNodeAnnounce, PropagationRequestKind, PropagationSignal, PropagationTransport,
    PropagationTransportError, PropagationTransportEvent, PropagationUploadFailure,
    PropagationUploadRepresentation,
};

fn local() -> DestinationInfo {
    DestinationInfo {
        hash: [7; 16],
        incoming: true,
        single: true,
        aspect: Aspect::Propagation,
        identity_hash: Some([8; 16]),
    }
}

fn setup() -> PropagationTransport {
    PropagationTransport::register(&local()).unwrap()
}

#[test]
fn client_destination_never_accepts_incoming_links() {
    let transport = setup();
    assert_ne!(transport.destination_hash(), [0; 16]);
    assert_eq!(transport.identity_hash(), [8; 16]);
    let outgoing = DestinationInfo {
        incoming: false,
        ..local()
    };
    assert!(matches!(
        PropagationTransport::register(&outgoing),
        Err(PropagationTransportError::InvalidDestination)
    ));
    assert!(matches!(
        PropagationTransport::attach(None),
        Err(PropagationTransportError::InvalidDestination)
    ));
}

#[test]
fn unknown_node_without_path_enters_path_requested_state() {
    let mut transport = setup();
    let remote = [0x21; 16];
    assert_eq!(
        transport.link_call(remote, false, &Facts::none()),
        Some(CoreCall::RequestPath {
            destination: remote
        })
    );
    transport
        .ensure_link(remote, false, &Facts::none())
        .expect("a missing key must not block the initial path request");
    assert!(transport.wanted_links.contains(&remote));
    assert_eq!(transport.active_link(&remote), None);
}

#[test]
fn maps_only_outgoing_client_state() {
    let mut transport = setup();
    let remote = [0x31; 16];
    let link_id = [0x42; 16];
    transport.link_destinations.insert(link_id, remote);
    transport.pending_links.insert(remote, link_id);

    let output = transport
        .handle_event(
            &CoreEvent::LinkEstablished {
                link_id,
                is_initiator: true,
            },
            &Facts::none(),
        )
        .unwrap();
    assert!(matches!(
        output.events.as_slice(),
        [PropagationTransportEvent::LinkEstablished {
            destination,
            link_id: established,
        }] if *destination == remote && *established == link_id
    ));

    let request_id = [0x53; 16];
    transport.pending_requests.insert(
        request_id,
        PendingRequest {
            kind: PropagationRequestKind::Get,
            link_id,
            request_resource_hash: None,
        },
    );
    let progress = transport
        .handle_event(
            &CoreEvent::ResourceProgress {
                link_id,
                resource_hash: [0x64; 32],
                progress: 0.5f32.to_bits(),
                transfer_size: 1_000,
                data_size: 2_000,
                is_sender: false,
            },
            &Facts::none(),
        )
        .unwrap();
    assert!(matches!(
        progress.events.as_slice(),
        [PropagationTransportEvent::RequestProgress {
            kind: PropagationRequestKind::Get,
            progress,
            transfer_size: 1_000,
            ..
        }] if *progress == 0.5f32.to_bits()
    ));

    let response = transport
        .handle_event(
            &CoreEvent::ResponseReceived {
                link_id,
                request_id,
                response_data: vec![0xc3],
            },
            &Facts::none(),
        )
        .unwrap();
    assert!(matches!(
        response.events.as_slice(),
        [PropagationTransportEvent::ResponseReceived {
            kind: PropagationRequestKind::Get,
            data,
            ..
        }] if data == &[0xc3]
    ));

    let ignored = transport
        .handle_event(
            &CoreEvent::LinkDataReceived {
                link_id,
                data: vec![1, 2, 3],
            },
            &Facts::none(),
        )
        .unwrap();
    assert!(ignored.events.is_empty());

    let closed = transport
        .handle_event(
            &CoreEvent::LinkClosed {
                link_id,
                reason: LinkCloseReason::PeerClosed,
                is_initiator: true,
                destination: remote,
            },
            &Facts::none(),
        )
        .unwrap();
    assert!(matches!(
        closed.events.as_slice(),
        [PropagationTransportEvent::LinkClosed {
            destination,
            reason: LinkCloseReason::PeerClosed,
            ..
        }] if *destination == remote
    ));
    assert_eq!(transport.active_link(&remote), None);
}

#[test]
fn upload_representation_uses_python_lxmf_cutoff() {
    assert_eq!(
        upload_representation(LINK_PACKET_MAX_CONTENT),
        PropagationUploadRepresentation::Packet
    );
    assert_eq!(
        upload_representation(LINK_PACKET_MAX_CONTENT + 1),
        PropagationUploadRepresentation::Resource
    );
}

#[test]
fn packet_upload_proof_and_timeout_are_correlated_once() {
    let mut transport = setup();
    let link_id = [0x61; 16];
    let message_id = [0x62; 32];
    let packet_hash = [0x63; 32];
    transport.pending_uploads.insert(
        link_id,
        PendingUpload {
            message_id,
            transfer: PendingUploadTransfer::Packet { packet_hash },
        },
    );
    assert_eq!(transport.active_upload(&link_id), Some(message_id));
    assert!(transport.has_active_upload(&message_id));

    let unrelated = transport
        .handle_event(
            &CoreEvent::LinkDeliveryConfirmed {
                link_id,
                packet_hash: [0x64; 32],
            },
            &Facts::none(),
        )
        .unwrap();
    assert!(unrelated.events.is_empty());

    let completed = transport
        .handle_event(
            &CoreEvent::LinkDeliveryConfirmed {
                link_id,
                packet_hash,
            },
            &Facts::none(),
        )
        .unwrap();
    assert!(matches!(
        completed.events.as_slice(),
        [PropagationTransportEvent::UploadCompleted {
            link_id: completed_link,
            message_id: completed_message,
        }] if *completed_link == link_id && *completed_message == message_id
    ));
    assert_eq!(transport.active_upload(&link_id), None);

    transport.pending_uploads.insert(
        link_id,
        PendingUpload {
            message_id,
            transfer: PendingUploadTransfer::Packet { packet_hash },
        },
    );
    let timed_out = transport
        .handle_event(
            &CoreEvent::LinkDeliveryFailed {
                link_id,
                packet_hash,
            },
            &Facts::none(),
        )
        .unwrap();
    assert!(matches!(
        timed_out.events.as_slice(),
        [PropagationTransportEvent::UploadFailed {
            link_id: failed_link,
            message_id: failed_message,
            reason: PropagationUploadFailure::PacketTimeout,
        }] if failed_link == &link_id && failed_message == &message_id
    ));
    assert!(transport
        .handle_event(
            &CoreEvent::LinkDeliveryFailed {
                link_id,
                packet_hash,
            },
            &Facts::none(),
        )
        .unwrap()
        .events
        .is_empty());
}

#[test]
fn upload_invalid_stamp_signal_rejects_only_an_active_upload() {
    let mut transport = setup();
    let link_id = [0x65; 16];
    let message_id = [0x66; 32];
    transport.pending_uploads.insert(
        link_id,
        PendingUpload {
            message_id,
            transfer: PendingUploadTransfer::Packet {
                packet_hash: [0x67; 32],
            },
        },
    );

    let malformed = transport
        .handle_event(
            &CoreEvent::LinkDataReceived {
                link_id,
                data: vec![0x91, 0xcc, 0xf4],
            },
            &Facts::none(),
        )
        .unwrap();
    assert!(malformed.events.is_empty());
    assert_eq!(transport.active_upload(&link_id), Some(message_id));

    let rejected = transport
        .handle_event(
            &CoreEvent::LinkDataReceived {
                link_id,
                data: vec![0x91, 0xcc, 0xf5],
            },
            &Facts::none(),
        )
        .unwrap();
    assert!(matches!(
        rejected.events.as_slice(),
        [PropagationTransportEvent::UploadRejected {
            link_id: rejected_link,
            message_id: rejected_message,
            signal: PropagationSignal::InvalidStamp,
        }] if *rejected_link == link_id && *rejected_message == message_id
    ));
    assert_eq!(transport.active_upload(&link_id), None);
}

#[test]
fn resource_upload_progress_completion_and_failure_are_sender_side() {
    let mut transport = setup();
    let link_id = [0x68; 16];
    let message_id = [0x69; 32];
    transport.pending_uploads.insert(
        link_id,
        PendingUpload {
            message_id,
            transfer: PendingUploadTransfer::Resource,
        },
    );

    let progress = transport
        .handle_event(
            &CoreEvent::ResourceProgress {
                link_id,
                resource_hash: [0x6a; 32],
                progress: 0.75f32.to_bits(),
                transfer_size: 4_000,
                data_size: 4_000,
                is_sender: true,
            },
            &Facts::none(),
        )
        .unwrap();
    assert!(matches!(
        progress.events.as_slice(),
        [PropagationTransportEvent::UploadProgress {
            message_id: progress_message,
            progress,
            ..
        }] if *progress_message == message_id && *progress == 0.75f32.to_bits()
    ));

    let intermediate = transport
        .handle_event(
            &CoreEvent::ResourceCompleted {
                link_id,
                resource_hash: [0x6a; 32],
                data: Vec::new(),
                is_sender: true,
                segment_index: 1,
                total_segments: 2,
            },
            &Facts::none(),
        )
        .unwrap();
    assert!(intermediate.events.is_empty());
    assert_eq!(transport.active_upload(&link_id), Some(message_id));

    let completed = transport
        .handle_event(
            &CoreEvent::ResourceCompleted {
                link_id,
                resource_hash: [0x6b; 32],
                data: Vec::new(),
                is_sender: true,
                segment_index: 2,
                total_segments: 2,
            },
            &Facts::none(),
        )
        .unwrap();
    assert!(matches!(
        completed.events.as_slice(),
        [PropagationTransportEvent::UploadCompleted {
            message_id: completed_message,
            ..
        }] if *completed_message == message_id
    ));

    transport.pending_uploads.insert(
        link_id,
        PendingUpload {
            message_id,
            transfer: PendingUploadTransfer::Resource,
        },
    );
    let failed = transport
        .handle_event(
            &CoreEvent::ResourceFailed {
                link_id,
                resource_hash: [0x6c; 32],
                error: ResourceError::Timeout,
                is_sender: true,
            },
            &Facts::none(),
        )
        .unwrap();
    assert!(matches!(
        failed.events.as_slice(),
        [PropagationTransportEvent::UploadFailed {
            message_id: failed_message,
            reason: PropagationUploadFailure::Resource(ResourceError::Timeout),
            ..
        }] if *failed_message == message_id
    ));
}

#[test]
fn closing_an_upload_link_fails_then_reports_the_close() {
    let mut transport = setup();
    let link_id = [0x6d; 16];
    let destination = [0x6e; 16];
    let message_id = [0x6f; 32];
    transport.link_destinations.insert(link_id, destination);
    transport.active_links.insert(destination, link_id);
    transport.pending_uploads.insert(
        link_id,
        PendingUpload {
            message_id,
            transfer: PendingUploadTransfer::Resource,
        },
    );

    let output = transport
        .handle_event(
            &CoreEvent::LinkClosed {
                link_id,
                reason: LinkCloseReason::PeerClosed,
                is_initiator: true,
                destination,
            },
            &Facts::none(),
        )
        .unwrap();
    assert!(matches!(
        output.events.as_slice(),
        [
            PropagationTransportEvent::UploadFailed {
                message_id: failed_message,
                reason: PropagationUploadFailure::LinkClosed(LinkCloseReason::PeerClosed),
                ..
            },
            PropagationTransportEvent::LinkClosed {
                destination: closed_destination,
                ..
            }
        ] if *failed_message == message_id && *closed_destination == destination
    ));
    assert_eq!(transport.active_upload(&link_id), None);
    assert!(!transport.owns_link(&link_id));
}

#[test]
fn request_resource_sender_failure_is_correlated_once() {
    let mut transport = setup();
    let link_id = [0x71; 16];
    let request_id = [0x72; 16];
    let resource_hash = [0x73; 32];
    transport.pending_requests.insert(
        request_id,
        PendingRequest {
            kind: PropagationRequestKind::Get,
            link_id,
            request_resource_hash: Some(resource_hash),
        },
    );

    let failed = transport
        .handle_event(
            &CoreEvent::ResourceFailed {
                link_id,
                resource_hash,
                error: ResourceError::Timeout,
                is_sender: true,
            },
            &Facts::none(),
        )
        .unwrap();
    assert!(matches!(
        failed.events.as_slice(),
        [PropagationTransportEvent::RequestTimedOut {
            link_id: failed_link,
            kind: PropagationRequestKind::Get,
        }] if *failed_link == link_id
    ));
    assert!(!transport.pending_requests.contains(&request_id));

    let duplicate = transport
        .handle_event(
            &CoreEvent::RequestTimedOut {
                link_id,
                request_id,
            },
            &Facts::none(),
        )
        .unwrap();
    assert!(duplicate.events.is_empty());
}

#[test]
fn request_resource_sender_completion_clears_only_upload_correlation() {
    let mut transport = setup();
    let link_id = [0x81; 16];
    let request_id = [0x82; 16];
    let resource_hash = [0x83; 32];
    transport.pending_requests.insert(
        request_id,
        PendingRequest {
            kind: PropagationRequestKind::List,
            link_id,
            request_resource_hash: Some(resource_hash),
        },
    );

    let completed = transport
        .handle_event(
            &CoreEvent::ResourceCompleted {
                link_id,
                resource_hash,
                data: Vec::new(),
                is_sender: true,
                segment_index: 1,
                total_segments: 1,
            },
            &Facts::none(),
        )
        .unwrap();
    assert!(completed.events.is_empty());
    let pending = transport
        .pending_requests
        .get(&request_id)
        .expect("completion keeps the request pending for its response");
    assert_eq!(pending.request_resource_hash, None);
}

fn connected() -> PropagationTransport {
    let mut transport = setup();
    transport.link_destinations.insert([2; 16], [1; 16]);
    transport.active_links.insert([1; 16], [2; 16]);
    transport
}

#[test]
fn an_upload_is_submitted_once_per_link_and_message() {
    let mut transport = connected();
    let link_id = [2; 16];
    assert!(matches!(
        transport.submit_upload([9; 16], true, [1; 32], 10, Ok([3; 32])),
        Err(PropagationTransportError::LinkUnavailable)
    ));
    let params = transport
        .upload_send_params(link_id, true, [1; 32], LINK_PACKET_MAX_CONTENT + 1)
        .unwrap();
    assert_eq!(
        params.representation,
        PropagationUploadRepresentation::Resource
    );
    let output = transport
        .submit_upload(link_id, true, [1; 32], 10, Ok([3; 32]))
        .unwrap();
    assert!(matches!(
        output.events.as_slice(),
        [PropagationTransportEvent::UploadSubmitted {
            representation: PropagationUploadRepresentation::Packet,
            ..
        }]
    ));
    assert_eq!(transport.active_upload(&link_id), Some([1; 32]));
    assert!(matches!(
        transport.submit_upload(link_id, true, [4; 32], 10, Ok([3; 32])),
        Err(PropagationTransportError::UploadInProgress)
    ));
}

#[test]
fn an_upload_built_apart_is_looked_at_again() {
    let mut transport = connected();
    let link_id = [2; 16];
    let params = transport
        .upload_send_params(link_id, true, [1; 32], 10)
        .unwrap();
    assert_eq!(
        params.build(Err(ResourceError::ResourceTooLarge)),
        Err(PropagationTransportError::Resource(
            ResourceError::ResourceTooLarge
        ))
    );
    let prepared = params.build(Ok(())).unwrap();
    assert_eq!(
        prepared,
        PreparedUpload {
            link_id,
            message_id: [1; 32],
            representation: PropagationUploadRepresentation::Packet,
        }
    );
    assert!(matches!(
        transport.commit_upload(&prepared, false, Ok([3; 32])),
        Err(PropagationTransportError::LinkUnavailable)
    ));
    assert!(matches!(
        transport.commit_upload(
            &prepared,
            true,
            Err(PropagationTransportError::Resource(ResourceError::LinkClosed))
        ),
        Err(PropagationTransportError::Resource(
            ResourceError::LinkClosed
        ))
    ));
    assert_eq!(transport.active_upload(&link_id), None);
    let output = transport
        .commit_upload(&prepared, true, Ok([3; 32]))
        .unwrap();
    assert_eq!(
        output.events,
        vec![PropagationTransportEvent::UploadSubmitted {
            link_id,
            message_id: [1; 32],
            representation: PropagationUploadRepresentation::Packet,
        }]
    );
    assert_eq!(transport.active_upload(&link_id), Some([1; 32]));
    assert!(matches!(
        transport.commit_upload(&prepared, true, Ok([3; 32])),
        Err(PropagationTransportError::UploadInProgress)
    ));
}

#[test]
fn an_oversized_request_falls_back_to_a_resource() {
    let mut transport = connected();
    let link_id = [2; 16];
    assert_eq!(
        transport.submit_mailbox_request(
            link_id,
            true,
            PropagationRequestKind::Get,
            SentRequest::Packet(Err(RequestError::PayloadTooLarge)),
        ),
        Ok(RequestStep::SendAsResource)
    );
    assert!(transport.pending_requests.is_empty());
    assert_eq!(
        transport.submit_mailbox_request(
            link_id,
            true,
            PropagationRequestKind::Get,
            SentRequest::Resource(Err(ResourceError::ResourceTooLarge)),
        ),
        Err(PropagationTransportError::Resource(
            ResourceError::ResourceTooLarge
        ))
    );
    assert!(transport.pending_requests.is_empty());
    assert_eq!(
        transport.submit_mailbox_request(
            link_id,
            true,
            PropagationRequestKind::List,
            SentRequest::Resource(Ok(([5; 16], [6; 32]))),
        ),
        Ok(RequestStep::Submitted)
    );
    let pending = transport.pending_requests.get(&[5; 16]).unwrap();
    assert_eq!(pending.request_resource_hash, Some([6; 32]));
    assert_eq!(
        transport.submit_mailbox_request(
            link_id,
            false,
            PropagationRequestKind::List,
            SentRequest::Packet(Ok([9; 16])),
        ),
        Err(PropagationTransportError::LinkUnavailable)
    );
}

#[test]
fn announces_of_nodes_are_remembered_and_forgotten() {
    let mut transport = setup();
    let announce = PropagationNodeAnnounce {
        legacy_support: false,
        timebase: 1,
        enabled: true,
        transfer_limit_kb: 256,
        sync_limit_kb: 10_240,
        stamp_cost: 16,
        stamp_cost_flexibility: 3,
        peering_cost: 18,
        metadata: Vec::new(),
    };
    let app_data = announce.encode().unwrap();
    assert!(transport
        .remember_announce([1; 16], Aspect::Delivery, &app_data)
        .is_none());
    let known = transport
        .remember_announce([1; 16], Aspect::Propagation, &app_data)
        .unwrap();
    assert_eq!(known.announce, announce);
    assert_eq!(transport.known_node(&[1; 16]), Some(&known));
    assert_eq!(transport.known_nodes().len(), 1);
    assert!(transport.forget_known_node(&[1; 16]));
    assert!(!transport.forget_known_node(&[1; 16]));
    transport.restore_known_node(known);
    assert!(transport.known_node(&[1; 16]).is_some());
}

#[test]
fn a_path_that_is_found_opens_the_wanted_link() {
    let mut transport = setup();
    let remote = [0x21; 16];
    transport.ensure_link(remote, false, &Facts::none()).unwrap();
    let event = CoreEvent::PathFound {
        destination: remote,
    };
    let facts = Facts {
        identity_known: true,
        new_link: [0x44; 16],
        ..Facts::none()
    };
    assert_eq!(
        transport.call_for(&event, &facts),
        Some(CoreCall::Connect {
            destination: remote
        })
    );
    transport.handle_event(&event, &facts).unwrap();
    assert!(transport.owns_link(&[0x44; 16]));
    assert_eq!(
        transport.cancel(remote),
        Some(CoreCall::CloseLink {
            link_id: [0x44; 16]
        })
    );
}

#[test]
fn identifying_needs_the_link_and_the_identity() {
    let transport = connected();
    assert_eq!(
        transport.identify([2; 16], true),
        Ok(CoreCall::IdentifyLink { link_id: [2; 16] })
    );
    assert_eq!(
        transport.identify([2; 16], false),
        Err(PropagationTransportError::InvalidDestination)
    );
    assert_eq!(
        transport.identify([3; 16], true),
        Err(PropagationTransportError::LinkUnavailable)
    );
}

/// A client with an established link to a node, as the stack brings it about.
fn established(node: [u8; 16], link_id: [u8; 16]) -> PropagationTransport {
    let mut transport = setup();
    let facts = Facts {
        has_path: true,
        identity_known: true,
        new_link: link_id,
        ..Facts::none()
    };
    assert_eq!(
        transport.link_call(node, false, &facts),
        Some(CoreCall::Connect { destination: node })
    );
    transport.ensure_link(node, false, &facts).expect("connect");
    let output = transport
        .handle_event(
            &CoreEvent::LinkEstablished {
                link_id,
                is_initiator: true,
            },
            &Facts::none(),
        )
        .expect("establish");
    assert_eq!(
        output.events,
        vec![PropagationTransportEvent::LinkEstablished {
            destination: node,
            link_id,
        }]
    );
    transport
}

#[test]
fn large_get_and_response_use_resource_fallback_end_to_end() {
    let node = [0x91; 16];
    let link_id = [0x92; 16];
    let mut transport = established(node, link_id);
    assert_eq!(transport.active_link(&node), Some(link_id));

    // A request that no Resource holds either leaves nothing behind.
    assert_eq!(
        transport.submit_mailbox_request(
            link_id,
            true,
            PropagationRequestKind::Get,
            SentRequest::Packet(Err(RequestError::PayloadTooLarge)),
        ),
        Ok(RequestStep::SendAsResource)
    );
    assert!(matches!(
        transport.submit_mailbox_request(
            link_id,
            true,
            PropagationRequestKind::Get,
            SentRequest::Resource(Err(ResourceError::ResourceTooLarge)),
        ),
        Err(PropagationTransportError::Resource(
            ResourceError::ResourceTooLarge
        ))
    ));
    assert!(transport.pending_requests.is_empty());

    // One that a Resource holds is awaited by its request id.
    let request_id = [0x93; 16];
    let request_resource = [0x94; 32];
    assert_eq!(
        transport.submit_mailbox_request(
            link_id,
            true,
            PropagationRequestKind::Get,
            SentRequest::Packet(Err(RequestError::PayloadTooLarge)),
        ),
        Ok(RequestStep::SendAsResource)
    );
    assert_eq!(
        transport.submit_mailbox_request(
            link_id,
            true,
            PropagationRequestKind::Get,
            SentRequest::Resource(Ok((request_id, request_resource))),
        ),
        Ok(RequestStep::Submitted)
    );
    assert!(transport
        .pending_requests
        .entries
        .iter()
        .any(|(_, pending)| pending.request_resource_hash.is_some()));
    let uploaded = transport
        .handle_event(
            &CoreEvent::ResourceCompleted {
                link_id,
                resource_hash: request_resource,
                data: Vec::new(),
                is_sender: true,
                segment_index: 1,
                total_segments: 1,
            },
            &Facts::none(),
        )
        .expect("request uploaded");
    assert!(uploaded.events.is_empty());
    assert!(transport
        .pending_requests
        .entries
        .iter()
        .all(|(_, pending)| pending.request_resource_hash.is_none()));

    // The response comes as a Resource of its own.
    let mut state = 0x6d2b_79f5u32;
    let response_body: Vec<u8> = (0..32_000)
        .map(|_| {
            state ^= state << 13;
            state ^= state >> 17;
            state ^= state << 5;
            (state >> 24) as u8
        })
        .collect();
    let mut encoded_response = Vec::new();
    msgpack::bin(&mut encoded_response, &response_body);
    let progress = transport
        .handle_event(
            &CoreEvent::ResourceProgress {
                link_id,
                resource_hash: [0x95; 32],
                progress: 0.5f32.to_bits(),
                transfer_size: 32_064,
                data_size: encoded_response.len() as u64,
                is_sender: false,
            },
            &Facts::none(),
        )
        .expect("progress");
    assert!(progress.events.iter().any(|event| matches!(
        event,
        PropagationTransportEvent::RequestProgress {
            kind: PropagationRequestKind::Get,
            ..
        }
    )));
    let response = transport
        .handle_event(
            &CoreEvent::ResponseReceived {
                link_id,
                request_id,
                response_data: encoded_response.clone(),
            },
            &Facts::none(),
        )
        .expect("response");
    assert!(response.events.iter().any(|event| matches!(
        event,
        PropagationTransportEvent::ResponseReceived {
            kind: PropagationRequestKind::Get,
            data,
            ..
        } if data == &encoded_response
    )));
    assert!(transport.pending_requests.is_empty());
}

#[test]
fn packet_and_resource_uploads_complete_end_to_end_without_offer_endpoint() {
    let node = [0xa1; 16];
    let link_id = [0xa2; 16];
    let mut transport = established(node, link_id);
    let link = transport.active_link(&node).unwrap();

    let packet_data = vec![0x71; LINK_PACKET_MAX_CONTENT];
    let packet_message_id = [0x72; 32];
    let packet_hash = [0xa3; 32];
    let submitted = transport
        .submit_upload(
            link,
            true,
            packet_message_id,
            packet_data.len(),
            Ok(packet_hash),
        )
        .unwrap();
    assert!(matches!(
        submitted.events.as_slice(),
        [PropagationTransportEvent::UploadSubmitted {
            representation: PropagationUploadRepresentation::Packet,
            ..
        }]
    ));
    assert!(matches!(
        transport.submit_upload(link, true, [0x73; 32], b"busy".len(), Ok([0xa4; 32])),
        Err(PropagationTransportError::UploadInProgress)
    ));
    let proved = transport
        .handle_event(
            &CoreEvent::LinkDeliveryConfirmed {
                link_id: link,
                packet_hash,
            },
            &Facts::none(),
        )
        .unwrap();
    assert!(proved.events.iter().any(|event| matches!(
        event,
        PropagationTransportEvent::UploadCompleted { message_id, .. }
            if message_id == &packet_message_id
    )));

    let resource_data = vec![0x74; LINK_PACKET_MAX_CONTENT + 1];
    let resource_message_id = [0x75; 32];
    let submitted = transport
        .submit_upload(
            link,
            true,
            resource_message_id,
            resource_data.len(),
            Ok([0xa5; 32]),
        )
        .unwrap();
    assert!(matches!(
        submitted.events.as_slice(),
        [PropagationTransportEvent::UploadSubmitted {
            representation: PropagationUploadRepresentation::Resource,
            ..
        }]
    ));
    let sent = CoreEvent::ResourceCompleted {
        link_id: link,
        resource_hash: [0xa5; 32],
        data: Vec::new(),
        is_sender: true,
        segment_index: 1,
        total_segments: 1,
    };
    let completed = transport.handle_event(&sent, &Facts::none()).unwrap();
    assert!(completed.events.iter().any(|event| matches!(
        event,
        PropagationTransportEvent::UploadCompleted { message_id, .. }
            if message_id == &resource_message_id
    )));

    // The same upload, built apart.
    let phased_data = vec![0x76; LINK_PACKET_MAX_CONTENT + 1];
    let phased_message_id = [0x77; 32];
    let params = transport
        .upload_send_params(link, true, phased_message_id, phased_data.len())
        .unwrap();
    assert_eq!(
        params.representation,
        PropagationUploadRepresentation::Resource
    );
    let prepared = params.build(Ok(())).unwrap();
    let submitted = transport
        .commit_upload(&prepared, true, Ok([0xa5; 32]))
        .unwrap();
    assert!(matches!(
        submitted.events.as_slice(),
        [PropagationTransportEvent::UploadSubmitted {
            representation: PropagationUploadRepresentation::Resource,
            ..
        }]
    ));
    let completed = transport.handle_event(&sent, &Facts::none()).unwrap();
    assert!(completed.events.iter().any(|event| matches!(
        event,
        PropagationTransportEvent::UploadCompleted { message_id, .. }
            if message_id == &phased_message_id
    )));
}
