//! Chunk-stream framing and handshake tests.

use rtmp_relay::stream::{
    handshake_check_version, handshake_s1, handshake_verify_echo, read_chunk_basic_header,
    send_chunk_basic_header, send_chunk_message_header, ChunkBasicHeader, ChunkMessageHeader,
    RtmpMessageStreamImpl,
};
use rtmp_relay::utils::ByteReader;

fn header(timestamp: u32, message_length: usize, timestamp_delta: u32) -> ChunkMessageHeader {
    ChunkMessageHeader {
        timestamp,
        message_length,
        message_type_id: 0,
        message_stream_id: 0,
        timestamp_delta,
    }
}

fn send_message_header(buffer: &mut Vec<u8>, h: ChunkMessageHeader, chunk_type: u8) {
    send_chunk_basic_header(
        buffer,
        ChunkBasicHeader {
            chunk_stream_id: 3,
            chunk_type,
        },
    );
    send_chunk_message_header(buffer, h, chunk_type);
}

#[test]
fn test_basic_header() {
    let data = vec![0x3];
    let mut reader = ByteReader::new(&data);
    let basic_header = read_chunk_basic_header(&mut reader).unwrap();
    assert_eq!(basic_header.chunk_type, 0);
    assert_eq!(basic_header.chunk_stream_id, 3);
}

#[test]
fn test_basic_header_large() {
    let data = vec![0x0, 0x0];
    let mut reader = ByteReader::new(&data);
    let basic_header = read_chunk_basic_header(&mut reader).unwrap();
    assert_eq!(basic_header.chunk_type, 0);
    assert_eq!(basic_header.chunk_stream_id, 64);
}

#[test]
fn test_basic_header_boundaries() {
    // the boundary ids, each in its shortest wire form
    for (csid, expected_len) in [
        (2u32, 1usize),
        (63, 1),
        (64, 2),
        (319, 2),
        (320, 3),
        (65599, 3),
    ] {
        let mut buffer = Vec::new();
        send_chunk_basic_header(
            &mut buffer,
            ChunkBasicHeader {
                chunk_stream_id: csid,
                chunk_type: 1,
            },
        );
        assert_eq!(buffer.len(), expected_len);
        let mut reader = ByteReader::new(&buffer);
        let back = read_chunk_basic_header(&mut reader).unwrap();
        assert_eq!(back.chunk_stream_id, csid);
        assert_eq!(back.chunk_type, 1);
    }
}

#[test]
fn test_timestamp_type0_type3() {
    let mut buffer = Vec::new();
    send_message_header(&mut buffer, header(7122, 0, 0), 0);
    send_message_header(&mut buffer, header(0, 0, 0), 3);
    let mut stream = RtmpMessageStreamImpl::new();
    let mut reader = ByteReader::new(&buffer);
    let msg = stream.read_message(&mut reader).unwrap().unwrap();
    assert_eq!(msg.header.timestamp, 7122);
    let msg = stream.read_message(&mut reader).unwrap().unwrap();
    assert_eq!(msg.header.timestamp, 7122 * 2);
}

#[test]
fn test_timestamp_type0_type2_type3_type3() {
    let mut buffer = Vec::new();
    send_message_header(&mut buffer, header(7122, 0, 0), 0);
    send_message_header(&mut buffer, header(0, 0, 1), 2);
    send_message_header(&mut buffer, header(0, 0, 0), 3);
    send_message_header(&mut buffer, header(0, 0, 0), 3);
    let mut stream = RtmpMessageStreamImpl::new();
    let mut reader = ByteReader::new(&buffer);
    let msg = stream.read_message(&mut reader).unwrap().unwrap();
    assert_eq!(msg.header.timestamp, 7122);
    assert_eq!(msg.header.timestamp_delta, 0);
    let msg = stream.read_message(&mut reader).unwrap().unwrap();
    assert_eq!(msg.header.timestamp, 7123);
    assert_eq!(msg.header.timestamp_delta, 1);
    let msg = stream.read_message(&mut reader).unwrap().unwrap();
    assert_eq!(msg.header.timestamp, 7124);
    assert_eq!(msg.header.timestamp_delta, 1);
    let msg = stream.read_message(&mut reader).unwrap().unwrap();
    assert_eq!(msg.header.timestamp, 7125);
    assert_eq!(msg.header.timestamp_delta, 1);
}

#[test]
fn test_timestamp_type0_type3_type3() {
    let mut buffer = Vec::new();
    send_message_header(&mut buffer, header(7122, 129, 0), 0);
    buffer.extend_from_slice(&[0x0; 128]);
    send_message_header(&mut buffer, header(0, 0, 0), 3);
    buffer.extend_from_slice(&[0x0; 1]);
    send_message_header(&mut buffer, header(0, 0, 0), 3);
    buffer.extend_from_slice(&[0x0; 128]);
    send_message_header(&mut buffer, header(0, 0, 0), 3);
    buffer.extend_from_slice(&[0x0; 129]);
    let mut stream = RtmpMessageStreamImpl::new();
    let mut reader = ByteReader::new(&buffer);
    assert!(stream.read_message(&mut reader).unwrap().is_none());
    let msg = stream.read_message(&mut reader).unwrap().unwrap();
    assert_eq!(msg.header.timestamp, 7122);
    assert_eq!(msg.header.message_length, 129);
    assert_eq!(msg.message.len(), 129);
    assert!(stream.read_message(&mut reader).unwrap().is_none());
    let msg = stream.read_message(&mut reader).unwrap().unwrap();
    assert_eq!(msg.header.timestamp, 7122 * 2);
    assert_eq!(msg.header.message_length, 129);
    assert_eq!(msg.message.len(), 129);
}

#[test]
fn test_extended_timestamp_boundary() {
    // a timestamp of exactly 0xFFFFFF needs the extended field
    let mut buffer = Vec::new();
    send_message_header(&mut buffer, header(0xFFFFFF, 0, 0), 0);
    assert_eq!(buffer.len(), 1 + 11 + 4);
    assert_eq!(&buffer[1..4], &[0xFF, 0xFF, 0xFF]);
    assert_eq!(&buffer[12..16], &[0x00, 0xFF, 0xFF, 0xFF]);
    let mut stream = RtmpMessageStreamImpl::new();
    let mut reader = ByteReader::new(&buffer);
    let msg = stream.read_message(&mut reader).unwrap().unwrap();
    assert_eq!(msg.header.timestamp, 0xFFFFFF);
    // one less does not
    let mut buffer = Vec::new();
    send_message_header(&mut buffer, header(0xFFFFFE, 0, 0), 0);
    assert_eq!(buffer.len(), 1 + 11);
    let mut stream = RtmpMessageStreamImpl::new();
    let mut reader = ByteReader::new(&buffer);
    let msg = stream.read_message(&mut reader).unwrap().unwrap();
    assert_eq!(msg.header.timestamp, 0xFFFFFE);
}

#[test]
fn test_send_message_reassembles() {
    // a 1000-byte message at a 128-byte chunk size: eight chunks, one message
    let payload: Vec<u8> = (0..1000u32).map(|i| (i % 251) as u8).collect();
    let sender = RtmpMessageStreamImpl::new();
    let mut wire = Vec::new();
    sender.send_message(&mut wire, 3, 7, 42, 9, &payload);
    let mut receiver = RtmpMessageStreamImpl::new();
    let mut reader = ByteReader::new(&wire);
    let mut emitted = Vec::new();
    let mut chunks = 0;
    while reader.position() < wire.len() {
        chunks += 1;
        if let Some(msg) = receiver.read_message(&mut reader).unwrap() {
            emitted.push(msg);
        }
    }
    assert_eq!(chunks, 8); // ceil(1000 / 128)
    assert_eq!(emitted.len(), 1);
    assert_eq!(emitted[0].message, payload);
    assert_eq!(emitted[0].header.timestamp, 42);
    assert_eq!(emitted[0].header.message_type_id, 9);
    assert_eq!(emitted[0].header.message_stream_id, 7);
}

#[test]
fn test_handshake_packets() {
    let s1 = handshake_s1();
    assert_eq!(s1.len(), 1536);
    assert_eq!(&s1[0..8], &[0u8; 8]);
    assert!(handshake_check_version(3));
    assert!(!handshake_check_version(6));
    let echo = s1.clone();
    assert!(handshake_verify_echo(&echo, &s1));
    let mut bad = s1.clone();
    bad[100] = bad[100].wrapping_add(1);
    assert!(!handshake_verify_echo(&bad, &s1));
    let mut early = s1.clone();
    early[3] = early[3].wrapping_add(1);
    assert!(handshake_verify_echo(&early, &s1)); // the first eight bytes are not checked
}
