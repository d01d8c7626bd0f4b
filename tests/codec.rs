use spawn_server::codec::{
    exit_code, take_document, ChildOutputStreamDecoder, MalformedRequest, OutputStreamType,
    SpawnCodec, SpawnResponse, EXIT_SENTINEL,
};

fn encoded(msg: SpawnResponse) -> Vec<u8> {
    let mut buf = Vec::new();
    SpawnCodec.encode(msg, &mut buf);
    buf
}

#[test]
fn encode_stdout_chunk() {
    let bytes = encoded(SpawnResponse::ChildOutput {
        request_id: 7,
        source: OutputStreamType::Stdout,
        data: b"hi".to_vec(),
    });
    assert_eq!(bytes, vec![0, 0, 0, 7, 1, 0, 0, 0, 2, 0x68, 0x69]);
}

#[test]
fn encode_exit_zero() {
    let bytes = encoded(SpawnResponse::ChildExit { request_id: 7, status: 0 });
    assert_eq!(bytes, vec![0, 0, 0, 7, 0, 0, 0, 0, 0]);
}

#[test]
fn encode_stderr_chunk_large_id() {
    let bytes = encoded(SpawnResponse::ChildOutput {
        request_id: 0x01020304,
        source: OutputStreamType::Stderr,
        data: vec![0xff],
    });
    assert_eq!(bytes, vec![1, 2, 3, 4, 2, 0, 0, 0, 1, 0xff]);
}

#[test]
fn encode_exit_sentinel_is_negative_one() {
    let bytes = encoded(SpawnResponse::ChildExit { request_id: 1, status: EXIT_SENTINEL });
    assert_eq!(bytes, vec![0, 0, 0, 1, 0, 0xff, 0xff, 0xff, 0xff]);
}

#[test]
fn encode_appends_to_buffer() {
    let mut buf = vec![9u8];
    SpawnCodec.encode(SpawnResponse::ChildExit { request_id: 2, status: 258 }, &mut buf);
    assert_eq!(buf, vec![9, 0, 0, 0, 2, 0, 0, 0, 1, 2]);
}

#[test]
fn encode_empty_chunk() {
    let bytes = encoded(SpawnResponse::ChildOutput {
        request_id: 3,
        source: OutputStreamType::Stdout,
        data: Vec::new(),
    });
    assert_eq!(bytes, vec![0, 0, 0, 3, 1, 0, 0, 0, 0]);
}

#[test]
fn exit_code_maps_missing_to_sentinel() {
    assert_eq!(exit_code(Some(3)), 3);
    assert_eq!(exit_code(Some(-1)), -1);
    assert_eq!(exit_code(None), -1);
}

#[test]
fn decode_empty_buffer_needs_more() {
    let mut buf: Vec<u8> = Vec::new();
    assert_eq!(SpawnCodec.decode(&mut buf), Ok(None));
    assert!(buf.is_empty());
}

#[test]
fn decode_complete_document() {
    let doc = br#"{"id": 1, "path": "echo", "args": ["hello"], "cwd": "/", "env": {}}"#;
    let mut buf = doc.to_vec();
    let r = SpawnCodec.decode(&mut buf);
    assert_eq!(r, Ok(Some(doc.to_vec())));
    assert!(buf.is_empty());
}

#[test]
fn decode_keeps_truncated_document() {
    let mut buf = br#"{"id": 1, "path": "ec"#.to_vec();
    let before = buf.clone();
    assert_eq!(SpawnCodec.decode(&mut buf), Ok(None));
    assert_eq!(buf, before);
}

#[test]
fn decode_takes_one_document_at_a_time() {
    let mut buf = br#"{"id": 1} {"id": 2}"#.to_vec();
    assert_eq!(SpawnCodec.decode(&mut buf), Ok(Some(br#"{"id": 1}"#.to_vec())));
    assert_eq!(buf, br#" {"id": 2}"#.to_vec());
    assert_eq!(SpawnCodec.decode(&mut buf), Ok(Some(br#" {"id": 2}"#.to_vec())));
    assert!(buf.is_empty());
}

#[test]
fn decode_document_then_partial() {
    let mut buf = br#"{"id": 1}{"id""#.to_vec();
    assert_eq!(SpawnCodec.decode(&mut buf), Ok(Some(br#"{"id": 1}"#.to_vec())));
    assert_eq!(buf, br#"{"id""#.to_vec());
    assert_eq!(SpawnCodec.decode(&mut buf), Ok(None));
    assert_eq!(buf, br#"{"id""#.to_vec());
}

#[test]
fn decode_rejects_garbage() {
    let mut buf = b"}not json".to_vec();
    let r = SpawnCodec.decode(&mut buf);
    assert!(matches!(r, Err(MalformedRequest { .. })));
    assert_eq!(buf, b"}not json".to_vec());
}

#[test]
fn take_document_splits_front() {
    let mut buf = b"abcdef".to_vec();
    assert_eq!(take_document(&mut buf, Ok(Some(4))), Ok(Some(b"abcd".to_vec())));
    assert_eq!(buf, b"ef".to_vec());
}

#[test]
fn take_document_incomplete_and_error() {
    let mut buf = b"abc".to_vec();
    assert_eq!(take_document(&mut buf, Ok(None)), Ok(None));
    assert_eq!(buf, b"abc".to_vec());
    let r = take_document(&mut buf, Err("bad".to_string()));
    assert_eq!(r, Err(MalformedRequest { reason: "bad".to_string() }));
    assert_eq!(buf, b"abc".to_vec());
}

#[test]
fn output_decoders_tag_their_source() {
    let out = ChildOutputStreamDecoder::from_stdout(5);
    assert_eq!(out.request_id, 5);
    assert_eq!(out.source, OutputStreamType::Stdout);
    let err = ChildOutputStreamDecoder::from_stderr(6);
    assert_eq!(err.request_id, 6);
    assert_eq!(err.source, OutputStreamType::Stderr);
}

#[test]
fn output_decoder_takes_whole_buffer() {
    let mut dec = ChildOutputStreamDecoder::from_stderr(4);
    let mut buf = b"oops\n".to_vec();
    let r = dec.decode(&mut buf);
    assert_eq!(
        r,
        Some(SpawnResponse::ChildOutput {
            request_id: 4,
            source: OutputStreamType::Stderr,
            data: b"oops\n".to_vec(),
        })
    );
    assert!(buf.is_empty());
    assert_eq!(dec.decode(&mut buf), None);
}

#[test]
fn decode_all_takes_every_complete_document() {
    let mut buf = br#"{"id": 1}[2] {"id": 3"#.to_vec();
    let r = SpawnCodec.decode_all(&mut buf);
    assert_eq!(r, Ok(vec![br#"{"id": 1}"#.to_vec(), b"[2]".to_vec()]));
    assert_eq!(buf, br#" {"id": 3"#.to_vec());
}

#[test]
fn decode_all_on_empty_buffer() {
    let mut buf: Vec<u8> = Vec::new();
    assert_eq!(SpawnCodec.decode_all(&mut buf), Ok(Vec::new()));
    assert!(buf.is_empty());
}

#[test]
fn decode_all_error_consumes_nothing() {
    let mut buf = br#"{"id": 1} ]"#.to_vec();
    let r = SpawnCodec.decode_all(&mut buf);
    assert!(matches!(r, Err(MalformedRequest { .. })));
    assert_eq!(buf, br#"{"id": 1} ]"#.to_vec());
}
