use omni_node::frame::ProtocolError;
use omni_node::registry::JobRegistry;
use omni_node::server::{
    process_request, receive_request, step, Action, ConnState, Event, Failure, DEFAULT_ADDRESS,
    DEFAULT_PORT,
};
use omni_node::wire::{decode_response, encode_request, encode_response, Schema};
use omni_node::{Request, Response};

fn job(start_time: i64, duration: u64, id: u128) -> Request {
    Request { start_time, duration, id }
}

fn every_event() -> Vec<Event> {
    vec![
        Event::FrameReceived(encode_request(Schema::Binary, &job(1, 2, 3))),
        Event::FrameReceived(vec![1, 2, 3]),
        Event::EndOfStream,
        Event::Registered(vec![job(1, 2, 3)]),
        Event::ResponseWritten,
        Event::ConnectionClosed,
        Event::TransportFailed,
    ]
}

#[test]
fn server_listens_on_the_loopback_address_by_default() {
    assert_eq!(DEFAULT_ADDRESS, [127, 0, 0, 1]);
    assert_eq!(DEFAULT_PORT, 9696);
}

#[test]
fn a_connection_runs_from_request_to_close() {
    for schema in [Schema::Binary, Schema::Text] {
        let request = job(1000, 1000, 7);
        let mut registry = JobRegistry::new();
        registry.insert_and_snapshot(job(0, 2000, 1));

        let state = ConnState::AwaitingRequest;
        let (state, action) = step(schema, state, Event::FrameReceived(encode_request(schema, &request)));
        assert_eq!(state, ConnState::RequestReceived(request));
        assert_eq!(action, Action::Register(request));

        let snapshot = registry.insert_and_snapshot(request);
        let (state, action) = step(schema, state, Event::Registered(snapshot));
        assert_eq!(state, ConnState::Computed(Response { max_jobs: 2 }));
        assert_eq!(action, Action::Send(encode_response(schema, &Response { max_jobs: 2 })));

        let (state, action) = step(schema, state, Event::ResponseWritten);
        assert_eq!(state, ConnState::ResponseSent);
        assert_eq!(action, Action::Close);

        let (state, action) = step(schema, state, Event::ConnectionClosed);
        assert_eq!(state, ConnState::Closed);
        assert_eq!(action, Action::Done);
    }
}

#[test]
fn a_frame_that_does_not_decode_fails_the_connection() {
    let good = encode_request(Schema::Binary, &job(1, 2, 3));
    let mut cut_with_more = good[..good.len() - 1].to_vec();
    cut_with_more[3] = 200;
    let frames = vec![
        (vec![], ProtocolError::Truncated),
        (vec![0, 0], ProtocolError::Truncated),
        (good[..good.len() - 1].to_vec(), ProtocolError::Truncated),
        (cut_with_more, ProtocolError::Truncated),
        (vec![0, 0, 0, 1, 0], ProtocolError::Malformed),
        (vec![0, 0, 0, 0], ProtocolError::Malformed),
        (vec![0, 0, 0, 1, 0, 9, 9, 9], ProtocolError::Malformed),
        (encode_request(Schema::Text, &job(1, 2, 3)), ProtocolError::Malformed),
    ];
    for (frame, error) in frames {
        assert_eq!(receive_request(Schema::Binary, &frame), Err(error));
        let (state, action) = step(Schema::Binary, ConnState::AwaitingRequest, Event::FrameReceived(frame));
        assert_eq!(state, ConnState::Failed(Failure::Protocol(error)));
        assert_eq!(action, Action::Close);
    }
}

#[test]
fn bytes_behind_the_first_frame_are_not_read() {
    for schema in [Schema::Binary, Schema::Text] {
        let first = job(1000, 1000, 1);
        let second = job(1000, 1000, 2);
        let tails = vec![
            vec![],
            vec![0],
            vec![0, 0, 0, 200, 1, 2],
            b"\n".to_vec(),
            encode_request(schema, &second),
            encode_request(schema, &first),
        ];
        for tail in tails {
            let mut bytes = encode_request(schema, &first);
            bytes.extend_from_slice(&tail);
            assert_eq!(receive_request(schema, &bytes), Ok(first));
            let (state, action) = step(schema, ConnState::AwaitingRequest, Event::FrameReceived(bytes));
            assert_eq!(state, ConnState::RequestReceived(first));
            assert_eq!(action, Action::Register(first));
        }
    }
}

#[test]
fn of_two_requests_sent_together_one_is_served() {
    for schema in [Schema::Binary, Schema::Text] {
        let first = job(0, 2000, 1);
        let second = job(1000, 1000, 2);
        let mut bytes = encode_request(schema, &first);
        bytes.extend_from_slice(&encode_request(schema, &second));
        let mut registry = JobRegistry::new();
        let reply = process_request(schema, &mut registry, &bytes).unwrap();
        assert_eq!(registry.snapshot(), vec![first]);
        assert!(!registry.contains(&second));
        assert_eq!(reply, encode_response(schema, &Response { max_jobs: 1 }));
    }
}

#[test]
fn a_peer_that_leaves_without_a_request_is_let_go() {
    let (state, action) = step(Schema::Binary, ConnState::AwaitingRequest, Event::EndOfStream);
    assert_eq!(state, ConnState::Closed);
    assert_eq!(action, Action::Close);
}

#[test]
fn a_transport_failure_fails_the_connection_from_any_open_state() {
    let open = [
        ConnState::AwaitingRequest,
        ConnState::RequestReceived(job(1, 2, 3)),
        ConnState::Computed(Response { max_jobs: 1 }),
        ConnState::ResponseSent,
    ];
    for state in open {
        let (next, action) = step(Schema::Binary, state, Event::TransportFailed);
        assert_eq!(next, ConnState::Failed(Failure::Transport));
        assert_eq!(action, Action::Close);
    }
}

#[test]
fn an_event_out_of_turn_fails_the_connection() {
    let expected = [
        (ConnState::AwaitingRequest, vec![0usize, 1, 2, 6]),
        (ConnState::RequestReceived(job(1, 2, 3)), vec![3, 6]),
        (ConnState::Computed(Response { max_jobs: 1 }), vec![4, 6]),
        (ConnState::ResponseSent, vec![5, 6]),
    ];
    for (state, in_turn) in expected {
        for (i, event) in every_event().into_iter().enumerate() {
            if !in_turn.contains(&i) {
                let (next, action) = step(Schema::Binary, state, event);
                assert_eq!(next, ConnState::Failed(Failure::OutOfTurn));
                assert_eq!(action, Action::Close);
            }
        }
    }
}

#[test]
fn no_second_request_is_read_on_a_connection() {
    let frame = encode_request(Schema::Binary, &job(1, 2, 3));
    for state in [
        ConnState::RequestReceived(job(1, 2, 3)),
        ConnState::Computed(Response { max_jobs: 1 }),
        ConnState::ResponseSent,
    ] {
        let (next, action) = step(Schema::Binary, state, Event::FrameReceived(frame.clone()));
        assert_eq!(next, ConnState::Failed(Failure::OutOfTurn));
        assert_eq!(action, Action::Close);
    }
}

#[test]
fn closed_and_failed_connections_stay_as_they_are() {
    for event in every_event() {
        let (next, action) = step(Schema::Binary, ConnState::Closed, event);
        assert_eq!(next, ConnState::Closed);
        assert_eq!(action, Action::Done);
    }
    for reason in [Failure::Transport, Failure::OutOfTurn, Failure::Protocol(ProtocolError::Malformed)] {
        for event in every_event() {
            let (next, action) = step(Schema::Text, ConnState::Failed(reason), event);
            assert_eq!(next, ConnState::Failed(reason));
            assert_eq!(action, Action::Done);
        }
    }
}

#[test]
fn the_answer_is_computed_over_the_snapshot() {
    let staggered = vec![job(0, 3000, 1), job(1000, 3000, 2), job(2000, 3000, 3)];
    let (state, action) =
        step(Schema::Text, ConnState::RequestReceived(job(0, 3000, 1)), Event::Registered(staggered));
    assert_eq!(state, ConnState::Computed(Response { max_jobs: 3 }));
    assert_eq!(action, Action::Send(b"\x00\x00\x00\x0e{\"max_jobs\":3}".to_vec()));
    let (state, action) =
        step(Schema::Binary, ConnState::RequestReceived(job(0, 3000, 1)), Event::Registered(vec![]));
    assert_eq!(state, ConnState::Computed(Response { max_jobs: 0 }));
    assert_eq!(action, Action::Send(vec![0, 0, 0, 8, 0, 0, 0, 0, 0, 0, 0, 0]));
}

#[test]
fn process_request_registers_and_answers() {
    for schema in [Schema::Binary, Schema::Text] {
        let mut registry = JobRegistry::new();
        let t0 = 1_700_000_000_000;
        let answers: Vec<usize> = [job(t0, 3000, 1), job(t0 + 1000, 3000, 2), job(t0 + 2000, 3000, 3), job(t0 + 9000, 1, 4)]
            .iter()
            .map(|request| {
                let reply = process_request(schema, &mut registry, &encode_request(schema, request)).unwrap();
                decode_response(schema, &reply).unwrap().max_jobs
            })
            .collect();
        assert_eq!(answers, vec![1, 2, 3, 3]);
        assert_eq!(registry.len(), 4);
    }
}

#[test]
fn process_request_is_idempotent_for_a_repeated_job() {
    let mut registry = JobRegistry::new();
    let first = encode_request(Schema::Binary, &job(0, 2000, 1));
    let second = encode_request(Schema::Binary, &job(1000, 1000, 2));
    process_request(Schema::Binary, &mut registry, &first).unwrap();
    let once = process_request(Schema::Binary, &mut registry, &second).unwrap();
    let size = registry.len();
    let twice = process_request(Schema::Binary, &mut registry, &second).unwrap();
    assert_eq!(once, twice);
    assert_eq!(registry.len(), size);
    assert_eq!(decode_response(Schema::Binary, &twice), Ok(Response { max_jobs: 2 }));
}

#[test]
fn process_request_refuses_a_bad_frame_and_leaves_the_registry() {
    let mut registry = JobRegistry::new();
    registry.insert_and_snapshot(job(1, 1, 1));
    let good = encode_request(Schema::Text, &job(1, 2, 3));
    let mut broken = good.clone();
    broken[10] = b'X';
    let mut longer = good.clone();
    longer[3] += 1;
    longer.push(b' ');
    assert_eq!(process_request(Schema::Text, &mut registry, &good[..7]), Err(ProtocolError::Truncated));
    assert_eq!(process_request(Schema::Text, &mut registry, &[]), Err(ProtocolError::Truncated));
    assert_eq!(process_request(Schema::Text, &mut registry, &broken), Err(ProtocolError::Malformed));
    assert_eq!(process_request(Schema::Text, &mut registry, &longer), Err(ProtocolError::Malformed));
    assert_eq!(registry.snapshot(), vec![job(1, 1, 1)]);
}
