use spawn_server::codec::{OutputStreamType, SpawnResponse, EXIT_SENTINEL};
use spawn_server::mux::{DuplicateRequestId, Multiplexer};

fn out(id: u32, source: OutputStreamType, data: &[u8]) -> SpawnResponse {
    SpawnResponse::ChildOutput { request_id: id, source, data: data.to_vec() }
}

#[test]
fn echo_hello_lifecycle() {
    let mut m = Multiplexer::new();
    let mut sent = Vec::new();
    assert_eq!(m.accept(1), Ok(()));
    sent.extend(m.child_output(1, OutputStreamType::Stdout, b"hello\n".to_vec()));
    sent.extend(m.stream_ended(1, OutputStreamType::Stdout));
    sent.extend(m.child_exited(1, Some(0)));
    sent.extend(m.stream_ended(1, OutputStreamType::Stderr));
    assert_eq!(
        sent,
        vec![
            out(1, OutputStreamType::Stdout, b"hello\n"),
            SpawnResponse::ChildExit { request_id: 1, status: 0 },
        ]
    );
    assert_eq!(m.len(), 0);
}

#[test]
fn exit_waits_for_both_streams() {
    let mut m = Multiplexer::new();
    m.accept(3).unwrap();
    assert_eq!(m.child_exited(3, Some(2)), None);
    assert_eq!(m.stream_ended(3, OutputStreamType::Stderr), None);
    assert_eq!(m.child_output(3, OutputStreamType::Stdout, b"late".to_vec()), Some(out(3, OutputStreamType::Stdout, b"late")));
    assert_eq!(
        m.stream_ended(3, OutputStreamType::Stdout),
        Some(SpawnResponse::ChildExit { request_id: 3, status: 2 })
    );
}

#[test]
fn signal_exit_uses_sentinel() {
    let mut m = Multiplexer::new();
    m.accept(8).unwrap();
    m.stream_ended(8, OutputStreamType::Stdout);
    m.stream_ended(8, OutputStreamType::Stderr);
    assert_eq!(
        m.child_exited(8, None),
        Some(SpawnResponse::ChildExit { request_id: 8, status: EXIT_SENTINEL })
    );
}

#[test]
fn launch_failure_gives_single_exit() {
    let mut m = Multiplexer::new();
    m.accept(9).unwrap();
    assert_eq!(
        m.launch_failed(9),
        Some(SpawnResponse::ChildExit { request_id: 9, status: -1 })
    );
    assert_eq!(m.len(), 0);
    assert_eq!(m.launch_failed(9), None);
    assert_eq!(m.child_output(9, OutputStreamType::Stdout, b"x".to_vec()), None);
}

#[test]
fn nothing_after_exit() {
    let mut m = Multiplexer::new();
    m.accept(2).unwrap();
    m.child_exited(2, Some(0));
    m.stream_ended(2, OutputStreamType::Stdout);
    assert!(m.stream_ended(2, OutputStreamType::Stderr).is_some());
    assert_eq!(m.child_output(2, OutputStreamType::Stderr, b"x".to_vec()), None);
    assert_eq!(m.child_exited(2, Some(1)), None);
    assert_eq!(m.stream_ended(2, OutputStreamType::Stdout), None);
}

#[test]
fn empty_chunk_and_closed_stream_send_nothing() {
    let mut m = Multiplexer::new();
    m.accept(4).unwrap();
    assert_eq!(m.child_output(4, OutputStreamType::Stdout, Vec::new()), None);
    m.stream_ended(4, OutputStreamType::Stdout);
    assert_eq!(m.child_output(4, OutputStreamType::Stdout, b"x".to_vec()), None);
    assert_eq!(m.child_output(4, OutputStreamType::Stderr, b"y".to_vec()), Some(out(4, OutputStreamType::Stderr, b"y")));
}

#[test]
fn duplicate_id_rejected_first_untouched() {
    let mut m = Multiplexer::new();
    m.accept(1).unwrap();
    assert_eq!(m.child_output(1, OutputStreamType::Stdout, b"a".to_vec()), Some(out(1, OutputStreamType::Stdout, b"a")));
    assert_eq!(m.accept(1), Err(DuplicateRequestId { id: 1 }));
    assert_eq!(m.len(), 1);
    assert_eq!(m.child_output(1, OutputStreamType::Stdout, b"b".to_vec()), Some(out(1, OutputStreamType::Stdout, b"b")));
    m.stream_ended(1, OutputStreamType::Stdout);
    m.stream_ended(1, OutputStreamType::Stderr);
    assert_eq!(m.child_exited(1, Some(0)), Some(SpawnResponse::ChildExit { request_id: 1, status: 0 }));
    assert_eq!(m.accept(1), Ok(()));
}

#[test]
fn interleaved_requests_keep_their_order() {
    let mut m = Multiplexer::new();
    m.accept(1).unwrap();
    m.accept(2).unwrap();
    let mut sent = Vec::new();
    sent.extend(m.child_output(2, OutputStreamType::Stdout, b"b1".to_vec()));
    sent.extend(m.child_output(1, OutputStreamType::Stdout, b"a1".to_vec()));
    sent.extend(m.child_output(2, OutputStreamType::Stdout, b"b2".to_vec()));
    sent.extend(m.child_output(1, OutputStreamType::Stderr, b"e1".to_vec()));
    sent.extend(m.child_output(1, OutputStreamType::Stdout, b"a2".to_vec()));
    let for_one: Vec<&SpawnResponse> = sent
        .iter()
        .filter(|r| matches!(r, SpawnResponse::ChildOutput { request_id: 1, .. }))
        .collect();
    assert_eq!(
        for_one,
        vec![
            &out(1, OutputStreamType::Stdout, b"a1"),
            &out(1, OutputStreamType::Stderr, b"e1"),
            &out(1, OutputStreamType::Stdout, b"a2"),
        ]
    );
    let for_two: Vec<&SpawnResponse> = sent
        .iter()
        .filter(|r| matches!(r, SpawnResponse::ChildOutput { request_id: 2, .. }))
        .collect();
    assert_eq!(
        for_two,
        vec![&out(2, OutputStreamType::Stdout, b"b1"), &out(2, OutputStreamType::Stdout, b"b2")]
    );
}

#[test]
fn shutdown_returns_open_ids_and_silences() {
    let mut m = Multiplexer::new();
    m.accept(5).unwrap();
    m.accept(6).unwrap();
    m.accept(7).unwrap();
    m.launch_failed(6);
    let mut ids = m.shutdown();
    ids.sort();
    assert_eq!(ids, vec![5, 7]);
    assert_eq!(m.len(), 0);
    assert_eq!(m.child_output(5, OutputStreamType::Stdout, b"x".to_vec()), None);
    assert_eq!(m.child_exited(7, Some(0)), None);
    assert_eq!(m.stream_ended(5, OutputStreamType::Stdout), None);
}
