use replication::diff::WorldDiff;
use replication::framing::{
    decode_length_frame, encode_length_frame, frame_with_channel_id, parse_channel_frame,
};
use replication::pacing::{
    FramePacer, ALLOWED_FRAME_TIME_NS, MAX_ACCUMULATED_FRAME_DELAY_NS,
};
use replication::proto::{
    begin_session, connection_step, ClientAction, ClientEvent, ClientProtoState, ClientRequest,
    ProtoError, ProxyMessage, ServerPush,
};

#[test]
fn begin_session_is_pending_and_sends_connect() {
    let (state, request) = begin_session(String::from("eve"));
    assert_eq!(state, ClientProtoState::Pending(String::from("eve")));
    assert_eq!(request, ClientRequest::Connect(String::from("eve")));
}

#[test]
fn push_step_transitions_like_process_push() {
    let pending = ClientProtoState::Pending(String::from("u"));
    let (s, a) = connection_step(pending, true, 1, ClientEvent::Push(ServerPush::Accepted)).unwrap();
    assert_eq!(s, ClientProtoState::Connected(String::from("u")));
    assert_eq!(a, ClientAction::Idle);

    let pending = ClientProtoState::Pending(String::from("u"));
    let err = connection_step(pending, true, 1, ClientEvent::Push(ServerPush::ServerVersion(9)));
    assert_eq!(err, Err(ProtoError::VersionMismatch));
}

#[test]
fn pending_becomes_connected_on_accept() {
    let state = ClientProtoState::Pending(String::from("alice"));
    assert!(state.is_pending());
    let next = state.process_push(true, 1, ServerPush::Accepted).unwrap();
    assert!(next.is_connected());
    assert_eq!(next, ClientProtoState::Connected(String::from("alice")));
}

#[test]
fn pending_becomes_disconnected_on_deny() {
    let state = ClientProtoState::Pending(String::from("bob"));
    let next = state
        .process_push(true, 1, ServerPush::Denied(String::from("full")))
        .unwrap();
    assert!(next.is_disconnected());
}

#[test]
fn version_mismatch_fatal_only_when_demanded() {
    let state = ClientProtoState::Pending(String::from("carol"));
    let err = state.process_push(true, 1, ServerPush::ServerVersion(2));
    assert_eq!(err, Err(ProtoError::VersionMismatch));

    let state = ClientProtoState::Pending(String::from("carol"));
    let next = state.process_push(false, 1, ServerPush::ServerVersion(2)).unwrap();
    assert!(next.is_pending());

    let state = ClientProtoState::Pending(String::from("carol"));
    let next = state.process_push(true, 2, ServerPush::ServerVersion(2)).unwrap();
    assert!(next.is_pending());
}

#[test]
fn connected_ignores_control_chatter() {
    let state = ClientProtoState::Connected(String::from("dave"));
    let next = state.process_push(true, 1, ServerPush::Accepted).unwrap();
    assert_eq!(next, ClientProtoState::Connected(String::from("dave")));
}

#[test]
fn connected_step_dispatches_each_event() {
    let connected = || ClientProtoState::Connected(String::from("u"));

    let (s, a) = connection_step(connected(), true, 1, ClientEvent::Diff(WorldDiff::new())).unwrap();
    assert!(s.is_connected());
    assert!(matches!(a, ClientAction::ApplyDiff(_)));

    let (_, a) = connection_step(connected(), true, 1, ClientEvent::Datagram(vec![1, 2])).unwrap();
    assert_eq!(a, ClientAction::DispatchDatagram(vec![1, 2]));

    let (_, a) = connection_step(connected(), true, 1, ClientEvent::BiOpen).unwrap();
    assert_eq!(a, ClientAction::AcceptBi);

    let (_, a) = connection_step(connected(), true, 1, ClientEvent::UniOpen).unwrap();
    assert_eq!(a, ClientAction::AcceptUni);

    let msg = ProxyMessage::Datagram { id: 4, data: vec![9] };
    let (_, a) = connection_step(connected(), true, 1, ClientEvent::Proxy(msg)).unwrap();
    assert_eq!(a, ClientAction::SendProxy(ProxyMessage::Datagram { id: 4, data: vec![9] }));

    let (s, a) = connection_step(connected(), true, 1, ClientEvent::ControlDisconnect).unwrap();
    assert!(s.is_connected());
    assert_eq!(a, ClientAction::SendControl(ClientRequest::Disconnect));
}

#[test]
fn disconnected_step_is_idle() {
    let (s, a) = connection_step(
        ClientProtoState::Disconnected,
        true,
        1,
        ClientEvent::Datagram(vec![1]),
    )
    .unwrap();
    assert!(s.is_disconnected());
    assert_eq!(a, ClientAction::Idle);
}

#[test]
fn channel_frame_round_trip() {
    let framed = frame_with_channel_id(0x0102_03FF, &[10, 20, 30]);
    assert_eq!(framed, vec![0x01, 0x02, 0x03, 0xFF, 10, 20, 30]);
    let (id, payload) = parse_channel_frame(&framed).unwrap();
    assert_eq!(id, 0x0102_03FF);
    assert_eq!(payload, vec![10, 20, 30]);
}

#[test]
fn channel_frame_too_short_is_rejected() {
    assert!(parse_channel_frame(&[1, 2, 3]).is_none());
    let (id, payload) = parse_channel_frame(&[0, 0, 0, 7]).unwrap();
    assert_eq!(id, 7);
    assert!(payload.is_empty());
}

#[test]
fn length_frame_round_trip() {
    let framed = encode_length_frame(&[5, 6, 7]).unwrap();
    assert_eq!(framed, vec![0, 0, 0, 3, 5, 6, 7]);
    let (payload, used) = decode_length_frame(&framed).unwrap();
    assert_eq!(payload, vec![5, 6, 7]);
    assert_eq!(used, 7);
    // an incomplete buffer yields nothing
    assert!(decode_length_frame(&framed[..5]).is_none());
}

#[test]
fn backpressure_two_slow_frames_drop_the_third_tick() {
    // P7: 30ms frames against a 16.66ms budget for two consecutive frames
    // accumulate delay beyond the 20ms ceiling, so the third frame's tick is
    // skipped and the accumulator reset to zero.
    let mut pacer = FramePacer::standard();
    assert_eq!(pacer.budget_ns, ALLOWED_FRAME_TIME_NS);
    assert_eq!(pacer.ceiling_ns, MAX_ACCUMULATED_FRAME_DELAY_NS);
    let frame_30ms: u64 = 30_000_000;

    assert!(pacer.begin_frame());
    pacer.end_frame(frame_30ms);
    assert_eq!(pacer.accumulated_ns, 13_333_334);

    assert!(pacer.begin_frame());
    pacer.end_frame(frame_30ms);
    assert_eq!(pacer.accumulated_ns, 26_666_668);
    assert!(pacer.accumulated_ns > MAX_ACCUMULATED_FRAME_DELAY_NS);

    assert!(!pacer.begin_frame());
    assert_eq!(pacer.accumulated_ns, 0);
    assert!(pacer.begin_frame());
}

#[test]
fn frame_within_budget_resets_accumulator() {
    let mut pacer = FramePacer::standard();
    pacer.end_frame(30_000_000);
    assert!(pacer.accumulated_ns > 0);
    pacer.end_frame(10_000_000);
    assert_eq!(pacer.accumulated_ns, 0);
}
