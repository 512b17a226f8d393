use h3i::actions::{
    Action, ResponseKind, StreamEvent, StreamEventType, StreamResponse, WaitType, WaitingFor,
};
use h3i::client::{
    check_duration_and_do_actions, closed_outcome, compute_sleep, generate_cid_and_reset_token,
    handle_actions, reset_token_from_bytes, validate_script, ClientError, OutboundFrame,
    StreamInput, SyncClient, MAX_CONN_ID_LEN,
};
use h3i::frame::{H3iFrame, SETTINGS_FRAME_TYPE};
use h3i::streams::{CloseTriggerFrame, CloseTriggerFrames};

fn send(stream_id: u64, frame_type: u64, payload: Vec<u8>) -> Action {
    Action::SendFrame { stream_id, fin_stream: false, frame: H3iFrame { frame_type, payload } }
}

fn wait_for(stream_id: u64, event_type: StreamEventType) -> Action {
    Action::Wait { wait_type: WaitType::StreamEvent(StreamEvent { stream_id, event_type }) }
}

fn step(
    c: &mut SyncClient, now: u64, actions: &Vec<Action>, inbound: Vec<StreamInput>,
    out: &mut Vec<OutboundFrame>,
) -> bool {
    c.application_step(now, true, actions, &inbound, out)
}

#[test]
fn send_goes_out_in_the_first_active_iteration() {
    let actions = vec![send(0, 1, vec![7, 8])];
    let mut c = SyncClient::new(None);
    let mut out = Vec::new();
    assert!(!c.application_step(0, false, &actions, &vec![], &mut out));
    assert!(out.is_empty());
    assert_eq!(c.cursor, 0);
    assert!(!step(&mut c, 1, &actions, vec![], &mut out));
    assert_eq!(out.len(), 1);
    assert_eq!(out[0].stream_id, 0);
    assert!(!out[0].fin);
    assert_eq!(out[0].bytes, vec![0x01, 0x02, 7, 8]);
    assert!(c.waiting_for.is_empty());
    assert_eq!(c.cursor, 1);
}

#[test]
fn script_without_waits_is_consumed_at_once() {
    let actions = vec![send(0, 1, vec![1]), send(4, 0, vec![]), send(8, 7, vec![2, 3])];
    let mut c = SyncClient::new(None);
    let mut out = Vec::new();
    step(&mut c, 0, &actions, vec![], &mut out);
    assert_eq!(c.cursor, 3);
    assert_eq!(out.len(), 3);
    assert_eq!(out[2].stream_id, 8);
    assert_eq!(out[2].bytes, vec![0x07, 0x02, 2, 3]);
}

#[test]
fn flush_marker_stops_consumption() {
    let actions = vec![send(0, 1, vec![]), Action::FlushPackets, send(0, 1, vec![])];
    let mut c = SyncClient::new(None);
    let mut out = Vec::new();
    step(&mut c, 0, &actions, vec![], &mut out);
    assert_eq!(out.len(), 1);
    assert_eq!(c.cursor, 2);
    step(&mut c, 1, &actions, vec![], &mut out);
    assert_eq!(out.len(), 2);
    assert_eq!(c.cursor, 3);
}

#[test]
fn send_waits_for_stream_end() {
    let actions = vec![wait_for(4, StreamEventType::Finished), send(0, 1, vec![9])];
    let mut c = SyncClient::new(None);
    let mut out = Vec::new();
    step(&mut c, 0, &actions, vec![], &mut out);
    assert!(out.is_empty());
    assert_eq!(c.waiting_for.waits.len(), 1);
    // Data on stream 4 that does not end it changes nothing.
    step(&mut c, 5, &actions, vec![StreamInput::Data { stream_id: 4, bytes: vec![0x00, 0x01, 0xaa], fin: false }], &mut out);
    assert!(out.is_empty());
    step(&mut c, 6, &actions, vec![StreamInput::Data { stream_id: 4, bytes: vec![], fin: true }], &mut out);
    assert_eq!(out.len(), 1);
    assert_eq!(out[0].bytes, vec![0x01, 0x01, 9]);
    assert!(c.waiting_for.is_empty());
}

#[test]
fn frame_wait_is_cleared_by_matching_frame() {
    let actions = vec![wait_for(0, StreamEventType::Frame(1)), send(0, 0, vec![])];
    let mut c = SyncClient::new(None);
    let mut out = Vec::new();
    step(&mut c, 0, &actions, vec![], &mut out);
    // A frame of another type does not match.
    step(&mut c, 1, &actions, vec![StreamInput::Data { stream_id: 0, bytes: vec![0x00, 0x00], fin: false }], &mut out);
    assert!(out.is_empty());
    step(&mut c, 2, &actions, vec![StreamInput::Data { stream_id: 0, bytes: vec![0x01, 0x00], fin: false }], &mut out);
    assert_eq!(out.len(), 1);
}

#[test]
fn settings_frame_triggers_close() {
    let triggers = CloseTriggerFrames {
        frames: vec![CloseTriggerFrame { stream_id: 0, frame_type: SETTINGS_FRAME_TYPE }],
    };
    let actions: Vec<Action> = vec![];
    let mut c = SyncClient::new(Some(triggers));
    let mut out = Vec::new();
    assert!(!step(&mut c, 0, &actions, vec![], &mut out));
    // A SETTINGS frame on another stream does not count.
    assert!(!step(&mut c, 1, &actions, vec![StreamInput::Data { stream_id: 3, bytes: vec![0x04, 0x00], fin: false }], &mut out));
    assert!(step(&mut c, 2, &actions, vec![StreamInput::Data { stream_id: 0, bytes: vec![0x04, 0x02, 0x06, 0x00], fin: false }], &mut out));
    assert!(c.close_requested);
    assert!(c.streams.all_close_trigger_frames_seen());
    // Unrelated frames keep the trigger met, and it fires only once.
    assert!(!step(&mut c, 3, &actions, vec![StreamInput::Data { stream_id: 0, bytes: vec![0x00, 0x00], fin: false }], &mut out));
    assert!(c.streams.all_close_trigger_frames_seen());
}

#[test]
fn no_trigger_configured_never_closes() {
    let mut c = SyncClient::new(None);
    let mut out = Vec::new();
    let actions: Vec<Action> = vec![];
    assert!(!step(&mut c, 0, &actions, vec![StreamInput::Data { stream_id: 0, bytes: vec![0x04, 0x00], fin: false }], &mut out));
    assert!(!c.streams.all_close_trigger_frames_seen());
}

#[test]
fn transport_timeout_shortens_the_wait() {
    let mut d = Some(200u64);
    let mut i = Some(1000u64);
    assert_eq!(compute_sleep(&mut d, &mut i, Some(50)), Some(50));
    assert_eq!(d, Some(150));
    assert_eq!(i, Some(1050));
    // After that wakeup the wait is still armed.
    let actions = vec![Action::Wait { wait_type: WaitType::WaitDuration(200) }, send(0, 1, vec![])];
    let mut cursor = 1usize;
    let mut out = Vec::new();
    let mut w = WaitingFor::new();
    check_duration_and_do_actions(&mut d, &mut i, 1050, &actions, &mut cursor, &mut out, &mut w);
    assert_eq!(d, Some(150));
    assert_eq!(cursor, 1);
    assert!(out.is_empty());
}

#[test]
fn sleep_picks_the_present_or_shorter_bound() {
    let mut d = None;
    let mut i = None;
    assert_eq!(compute_sleep(&mut d, &mut i, Some(30)), Some(30));
    assert_eq!(compute_sleep(&mut d, &mut i, None), None);
    let mut d = Some(20u64);
    let mut i = Some(5u64);
    assert_eq!(compute_sleep(&mut d, &mut i, Some(30)), Some(20));
    assert_eq!((d, i), (Some(20), Some(5)));
    assert_eq!(compute_sleep(&mut d, &mut i, None), Some(20));
    assert_eq!(compute_sleep(&mut d, &mut i, Some(20)), Some(20));
    assert_eq!((d, i), (Some(20), Some(5)));
}

#[test]
fn duration_wait_holds_until_elapsed() {
    let actions = vec![Action::Wait { wait_type: WaitType::WaitDuration(100) }, send(0, 1, vec![])];
    let mut c = SyncClient::new(None);
    let mut out = Vec::new();
    step(&mut c, 10, &actions, vec![], &mut out);
    assert_eq!(c.wait_duration, Some(100));
    assert_eq!(c.wait_instant, Some(10));
    step(&mut c, 109, &actions, vec![], &mut out);
    assert!(out.is_empty());
    step(&mut c, 110, &actions, vec![], &mut out);
    assert_eq!(out.len(), 1);
    assert_eq!(c.wait_duration, None);
}

#[test]
fn duration_wait_survives_shortened_sleeps() {
    let actions = vec![Action::Wait { wait_type: WaitType::WaitDuration(200) }, send(0, 1, vec![])];
    let mut c = SyncClient::new(None);
    let mut out = Vec::new();
    step(&mut c, 0, &actions, vec![], &mut out);
    let mut now = 0u64;
    for _ in 0..3 {
        let s = compute_sleep(&mut c.wait_duration, &mut c.wait_instant, Some(50)).unwrap();
        assert_eq!(s, 50);
        now += s;
        step(&mut c, now, &actions, vec![], &mut out);
        assert!(out.is_empty());
    }
    let s = compute_sleep(&mut c.wait_duration, &mut c.wait_instant, Some(50)).unwrap();
    assert_eq!(s, 50);
    now += s;
    assert_eq!(now, 200);
    step(&mut c, now, &actions, vec![], &mut out);
    assert_eq!(out.len(), 1);
}

#[test]
fn wait_is_not_armed_while_expectation_pending() {
    let actions = vec![
        wait_for(0, StreamEventType::Reset),
        Action::Wait { wait_type: WaitType::WaitDuration(5) },
        send(0, 1, vec![]),
    ];
    let mut c = SyncClient::new(None);
    let mut out = Vec::new();
    step(&mut c, 0, &actions, vec![], &mut out);
    assert_eq!(c.wait_duration, None);
    assert_eq!(c.waiting_for.waits.len(), 1);
    step(&mut c, 1, &actions, vec![StreamInput::Reset { stream_id: 0, code: 0x10c }], &mut out);
    assert!(c.waiting_for.is_empty());
    assert_eq!(c.wait_duration, Some(5));
    assert_eq!(c.wait_instant, Some(1));
    assert!(out.is_empty());
}

#[test]
fn handle_actions_does_nothing_while_waiting() {
    let actions = vec![send(0, 1, vec![])];
    let mut cursor = 0usize;
    let mut out = Vec::new();
    let mut w = WaitingFor::new();
    w.add_wait(&StreamEvent { stream_id: 2, event_type: StreamEventType::Finished });
    assert_eq!(handle_actions(&actions, &mut cursor, &mut out, &mut w), None);
    assert_eq!(cursor, 0);
    assert!(out.is_empty());
}

#[test]
fn handle_actions_reports_duration_wait() {
    let actions = vec![send(0, 1, vec![]), Action::Wait { wait_type: WaitType::WaitDuration(42) }];
    let mut cursor = 0usize;
    let mut out = Vec::new();
    let mut w = WaitingFor::new();
    assert_eq!(handle_actions(&actions, &mut cursor, &mut out, &mut w), Some(42));
    assert_eq!(cursor, 2);
    assert_eq!(out.len(), 1);
    assert_eq!(handle_actions(&actions, &mut cursor, &mut out, &mut w), None);
    assert_eq!(cursor, 2);
}

#[test]
fn finished_stream_clears_all_its_waits() {
    let mut w = WaitingFor::new();
    w.add_wait(&StreamEvent { stream_id: 4, event_type: StreamEventType::Frame(1) });
    w.add_wait(&StreamEvent { stream_id: 8, event_type: StreamEventType::Finished });
    w.add_wait(&StreamEvent { stream_id: 4, event_type: StreamEventType::Reset });
    w.clear_waits_on_stream(4);
    assert_eq!(w.waits, vec![StreamEvent { stream_id: 8, event_type: StreamEventType::Finished }]);
}

#[test]
fn remove_wait_takes_earliest_match() {
    let mut w = WaitingFor::new();
    let a = StreamEvent { stream_id: 4, event_type: StreamEventType::Frame(1) };
    let b = StreamEvent { stream_id: 4, event_type: StreamEventType::Frame(0) };
    w.add_wait(&a);
    w.add_wait(&b);
    w.add_wait(&a);
    let r = StreamResponse {
        stream_id: 4,
        kind: ResponseKind::FrameArrived(H3iFrame { frame_type: 1, payload: vec![] }),
    };
    assert!(w.remove_wait(&r));
    assert_eq!(w.waits, vec![b, a]);
    let other = StreamResponse { stream_id: 5, kind: ResponseKind::Finished };
    assert!(!w.remove_wait(&other));
    assert_eq!(w.waits.len(), 2);
}

#[test]
fn malformed_and_good_streams_in_one_iteration() {
    let actions = vec![wait_for(3, StreamEventType::Frame(0)), send(0, 1, vec![])];
    let mut c = SyncClient::new(None);
    let mut out = Vec::new();
    step(&mut c, 0, &actions, vec![], &mut out);
    step(
        &mut c,
        1,
        &actions,
        vec![
            StreamInput::Data { stream_id: 2, bytes: vec![0x08, 0x00], fin: false },
            StreamInput::Data { stream_id: 3, bytes: vec![0x00, 0x01, 0xaa], fin: false },
        ],
        &mut out,
    );
    assert_eq!(out.len(), 1);
    let i = c.streams.find(2).unwrap();
    assert!(c.streams.streams[i].frames.is_empty());
    let j = c.streams.find(3).unwrap();
    assert_eq!(c.streams.streams[j].frames.len(), 1);
}

#[test]
fn closed_before_handshake_fails() {
    assert!(matches!(closed_outcome(false), Err(ClientError::HandshakeFail)));
    assert!(closed_outcome(true).is_ok());
}

#[test]
fn script_validation() {
    assert!(validate_script(&vec![send(0, 1, vec![1, 2]), Action::FlushPackets]));
    assert!(!validate_script(&vec![send(0, u64::MAX, vec![])]));
    assert!(!validate_script(&vec![send(0, 1 << 62, vec![])]));
    assert!(validate_script(&vec![send(0, (1 << 62) - 1, vec![0; 1048577])]));
}

#[test]
fn reset_token_is_big_endian() {
    let b: Vec<u8> = (1..=16).collect();
    assert_eq!(reset_token_from_bytes(&b), 0x0102030405060708090a0b0c0d0e0f10u128);
    assert_eq!(reset_token_from_bytes(&vec![0xff; 16]), u128::MAX);
}

#[test]
fn connection_ids_are_random() {
    let (a, _) = generate_cid_and_reset_token();
    let (b, _) = generate_cid_and_reset_token();
    assert_eq!(a.len(), MAX_CONN_ID_LEN);
    assert_eq!(b.len(), MAX_CONN_ID_LEN);
    assert_ne!(a, b);
    assert!(a.iter().any(|x| *x != 0));
}
