//! Session engine tests: command dispatch, registry and fan-out.

use rtmp_relay::amf::{encode_amf_messages, AmfObject};
use rtmp_relay::error::Error;
use rtmp_relay::server::{
    on_status, registry_lookup, registry_remove_offline, OutboundMessage, Registry, RtmpServer,
};
use rtmp_relay::stream::{ChunkMessageHeader, Message};

fn message(message_type_id: u8, message_stream_id: u32, timestamp: u32, payload: Vec<u8>) -> Message {
    Message {
        header: ChunkMessageHeader {
            timestamp,
            message_length: payload.len(),
            message_type_id,
            message_stream_id,
            timestamp_delta: 0,
        },
        message: payload,
    }
}

fn command(values: &[AmfObject]) -> Message {
    message(20, 1, 0, encode_amf_messages(values))
}

fn publish_command(name: &str) -> Message {
    command(&[
        AmfObject::String(String::from("publish")),
        AmfObject::Number(0.0_f64.to_bits()),
        AmfObject::Null,
        AmfObject::String(String::from(name)),
        AmfObject::String(String::from("live")),
    ])
}

fn play_command(name: &str) -> Message {
    command(&[
        AmfObject::String(String::from("play")),
        AmfObject::Number(0.0_f64.to_bits()),
        AmfObject::Null,
        AmfObject::String(String::from(name)),
    ])
}

fn metadata_message() -> Message {
    message(
        18,
        1,
        0,
        encode_amf_messages(&[
            AmfObject::String(String::from("@setDataFrame")),
            AmfObject::String(String::from("onMetaData")),
            AmfObject::EcmaArray(vec![(
                String::from("width"),
                AmfObject::Number(640.0_f64.to_bits()),
            )]),
        ]),
    )
}

fn contains_subslice(haystack: &[u8], needle: &[u8]) -> bool {
    haystack.windows(needle.len()).any(|w| w == needle)
}

/// Unpacks reply bytes into the messages they chunk, so assertions see whole
/// payloads rather than chunk-split ones.
fn unchunk(wire: &[u8]) -> Vec<rtmp_relay::stream::Message> {
    let data = wire.to_vec();
    let mut codec = rtmp_relay::stream::RtmpMessageStreamImpl::new();
    let mut reader = rtmp_relay::utils::ByteReader::new(&data);
    let mut messages = Vec::new();
    while reader.position() < data.len() {
        if let Some(m) = codec.read_message(&mut reader).unwrap() {
            messages.push(m);
        }
    }
    messages
}

fn any_payload_contains(wire: &[u8], needle: &[u8]) -> bool {
    unchunk(wire)
        .iter()
        .any(|m| contains_subslice(&m.message, needle))
}

fn drive(
    server: &mut RtmpServer,
    registry: &mut Registry,
    msg: Message,
) -> (Vec<u8>, Vec<(u64, OutboundMessage)>, bool) {
    let mut out = Vec::new();
    let mut fanout = Vec::new();
    let done = server
        .handle_message(registry, msg, &mut out, &mut fanout)
        .unwrap();
    (out, fanout, done)
}

#[test]
fn connect_happy_path() {
    let mut server = RtmpServer::new(1);
    let mut registry: Registry = Vec::new();
    let msg = command(&[
        AmfObject::String(String::from("connect")),
        AmfObject::Number(1.0_f64.to_bits()),
        AmfObject::Object(vec![
            (
                String::from("app"),
                AmfObject::String(String::from("live")),
            ),
            (
                String::from("tcUrl"),
                AmfObject::String(String::from("rtmp://localhost/live")),
            ),
        ]),
    ]);
    let (out, fanout, done) = drive(&mut server, &mut registry, msg);
    assert!(!done);
    assert!(fanout.is_empty());
    let replies = unchunk(&out);
    assert_eq!(replies.len(), 5);
    let type_ids: Vec<u8> = replies.iter().map(|m| m.header.message_type_id).collect();
    assert_eq!(type_ids, vec![3, 5, 6, 4, 20]);
    assert!(any_payload_contains(
        &out,
        "NetConnection.Connect.Success".as_bytes()
    ));
}

#[test]
fn connect_rejects_wrong_transaction() {
    let mut server = RtmpServer::new(1);
    let mut registry: Registry = Vec::new();
    let msg = command(&[
        AmfObject::String(String::from("connect")),
        AmfObject::Number(2.0_f64.to_bits()),
        AmfObject::Object(vec![]),
    ]);
    let mut out = Vec::new();
    let mut fanout = Vec::new();
    let res = server.handle_message(&mut registry, msg, &mut out, &mut fanout);
    assert!(matches!(res, Err(Error::UnexpectedAmfObjectType)));
    assert!(out.is_empty());
}

#[test]
fn create_stream_replies_with_stream_id() {
    let mut server = RtmpServer::new(1);
    let mut registry: Registry = Vec::new();
    let msg = command(&[
        AmfObject::String(String::from("createStream")),
        AmfObject::Number(4.0_f64.to_bits()),
        AmfObject::Null,
    ]);
    let (out, _, done) = drive(&mut server, &mut registry, msg);
    assert!(!done);
    assert!(contains_subslice(&out, "_result".as_bytes()));
}

#[test]
fn publish_then_denied() {
    let mut p1 = RtmpServer::new(1);
    let mut p2 = RtmpServer::new(2);
    let mut registry: Registry = Vec::new();
    let (out1, _, _) = drive(&mut p1, &mut registry, publish_command("live"));
    assert!(contains_subslice(&out1, "NetStream.Publish.Start".as_bytes()));
    assert_eq!(registry.len(), 1);
    assert!(registry[0].1.published);
    let (out2, _, _) = drive(&mut p2, &mut registry, publish_command("live"));
    assert!(contains_subslice(
        &out2,
        "NetStream.Publish.Denied".as_bytes()
    ));
    // the denied publisher keeps its old role and the registry is unchanged
    assert_eq!(p2.stream_name, "");
    assert_eq!(registry.len(), 1);
    assert!(registry[0].1.clients.is_empty());
}

#[test]
fn publish_then_play_fan_out() {
    let mut publisher = RtmpServer::new(1);
    let mut subscriber = RtmpServer::new(2);
    let mut registry: Registry = Vec::new();
    drive(&mut publisher, &mut registry, publish_command("live"));

    // metadata and three early video frames arrive before any subscriber
    let meta = metadata_message();
    let meta_payload = meta.message.clone();
    let (_, fanout, _) = drive(&mut publisher, &mut registry, meta);
    assert!(fanout.is_empty());
    for ts in [0u32, 40, 80] {
        let (_, fanout, _) = drive(&mut publisher, &mut registry, message(9, 1, ts, vec![ts as u8; 10]));
        assert!(fanout.is_empty());
    }

    // a late subscriber gets the cached metadata replayed at once, without
    // the @setDataFrame wrapper (a one-byte marker, two length bytes, and
    // thirteen name bytes)
    let (out, fanout, _) = drive(&mut subscriber, &mut registry, play_command("live"));
    assert!(fanout.is_empty());
    assert!(contains_subslice(&out, "NetStream.Play.Start".as_bytes()));
    assert!(contains_subslice(&out, &meta_payload[16..]));
    assert!(!contains_subslice(&out, "@setDataFrame".as_bytes()));

    // every later frame reaches the subscriber exactly once, in order
    let mut seen = Vec::new();
    for ts in [120u32, 160] {
        let payload = vec![ts as u8; 10];
        let (_, fanout, _) = drive(
            &mut publisher,
            &mut registry,
            message(9, 1, ts, payload.clone()),
        );
        assert_eq!(fanout.len(), 1);
        assert_eq!(fanout[0].0, 2);
        assert_eq!(fanout[0].1.timestamp, ts);
        assert_eq!(fanout[0].1.message_type_id, 9);
        assert_eq!(fanout[0].1.payload, payload);
        seen.push(fanout[0].1.timestamp);
    }
    assert_eq!(seen, vec![120, 160]);
}

#[test]
fn pause_suppresses_delivery() {
    let mut publisher = RtmpServer::new(1);
    let mut subscriber = RtmpServer::new(2);
    let mut registry: Registry = Vec::new();
    drive(&mut publisher, &mut registry, publish_command("live"));
    drive(&mut subscriber, &mut registry, play_command("live"));
    let pause = command(&[
        AmfObject::String(String::from("pause")),
        AmfObject::Number(0.0_f64.to_bits()),
        AmfObject::Null,
        AmfObject::Boolean(true),
        AmfObject::Number(0.0_f64.to_bits()),
    ]);
    let (out, _, _) = drive(&mut subscriber, &mut registry, pause);
    assert!(contains_subslice(&out, "NetStream.Pause.Notify".as_bytes()));
    let (_, fanout, _) = drive(&mut publisher, &mut registry, message(8, 1, 0, vec![1, 2, 3]));
    assert!(fanout.is_empty());
}

#[test]
fn delete_stream_ends_session_and_entry() {
    let mut publisher = RtmpServer::new(1);
    let mut registry: Registry = Vec::new();
    drive(&mut publisher, &mut registry, publish_command("live"));
    assert_eq!(registry.len(), 1);
    let delete = command(&[
        AmfObject::String(String::from("deleteStream")),
        AmfObject::Number(0.0_f64.to_bits()),
        AmfObject::Null,
    ]);
    let (_, _, done) = drive(&mut publisher, &mut registry, delete);
    assert!(done);
    assert_eq!(registry.len(), 0);
}

#[test]
fn chunk_size_negotiation() {
    let mut server = RtmpServer::new(1);
    let mut registry: Registry = Vec::new();
    let set = message(1, 0, 0, 65536u32.to_be_bytes().to_vec());
    drive(&mut server, &mut registry, set);
    assert_eq!(server.message_stream.max_chunk_size_read, 65536);

    // a 100000-byte video message now arrives in two chunks
    let payload: Vec<u8> = (0..100000u32).map(|i| (i % 241) as u8).collect();
    let mut sender = rtmp_relay::stream::RtmpMessageStreamImpl::new();
    sender.max_chunk_size_write = 65536;
    let mut wire = Vec::new();
    sender.send_message(&mut wire, 4, 1, 1234, 9, &payload);
    let mut reader = rtmp_relay::utils::ByteReader::new(&wire);
    assert!(server
        .message_stream
        .read_message(&mut reader)
        .unwrap()
        .is_none());
    let msg = server
        .message_stream
        .read_message(&mut reader)
        .unwrap()
        .unwrap();
    assert_eq!(reader.position(), wire.len());
    assert_eq!(msg.header.message_length, 100000);
    assert_eq!(msg.message, payload);
    assert_eq!(msg.header.timestamp, 1234);
}

#[test]
fn set_chunk_size_rejects_bad_payloads() {
    let mut server = RtmpServer::new(1);
    let mut registry: Registry = Vec::new();
    let short = message(1, 0, 0, vec![0x0, 0x1]);
    let mut out = Vec::new();
    let mut fanout = Vec::new();
    let res = server.handle_message(&mut registry, short, &mut out, &mut fanout);
    assert!(matches!(res, Err(Error::InconsistentMessageLength)));
    let msb = message(1, 0, 0, 0x80000000u32.to_be_bytes().to_vec());
    let res = server.handle_message(&mut registry, msb, &mut out, &mut fanout);
    assert!(matches!(res, Err(Error::InconsistentMessageLength)));
    assert_eq!(server.message_stream.max_chunk_size_read, 128);
}

#[test]
fn abort_drops_partial_message() {
    let mut server = RtmpServer::new(1);
    let mut registry: Registry = Vec::new();
    // feed the first chunk of a two-chunk message
    let sender = rtmp_relay::stream::RtmpMessageStreamImpl::new();
    let mut wire = Vec::new();
    sender.send_message(&mut wire, 5, 1, 0, 9, &[7u8; 200]);
    let mut reader = rtmp_relay::utils::ByteReader::new(&wire);
    assert!(server
        .message_stream
        .read_message(&mut reader)
        .unwrap()
        .is_none());
    assert!(server.message_stream.channels.contains_key(&5));
    let abort = message(2, 0, 0, 5u32.to_be_bytes().to_vec());
    drive(&mut server, &mut registry, abort);
    assert!(!server.message_stream.channels.contains_key(&5));
}

#[test]
fn error_paths_terminate() {
    let mut server = RtmpServer::new(1);
    let mut registry: Registry = Vec::new();
    let mut out = Vec::new();
    let mut fanout = Vec::new();

    let unknown_cmd = command(&[
        AmfObject::String(String::from("fancyCommand")),
        AmfObject::Number(0.0_f64.to_bits()),
    ]);
    assert!(matches!(
        server.handle_message(&mut registry, unknown_cmd, &mut out, &mut fanout),
        Err(Error::UnknownCommandMessage(name)) if name == "fancyCommand"
    ));

    let non_string = command(&[AmfObject::Number(0.0_f64.to_bits())]);
    assert!(matches!(
        server.handle_message(&mut registry, non_string, &mut out, &mut fanout),
        Err(Error::NonStringCommand)
    ));

    let amf3 = message(17, 0, 0, vec![]);
    assert!(matches!(
        server.handle_message(&mut registry, amf3, &mut out, &mut fanout),
        Err(Error::Amf3NotSupported)
    ));

    let unknown_type = message(99, 0, 0, vec![]);
    assert!(matches!(
        server.handle_message(&mut registry, unknown_type, &mut out, &mut fanout),
        Err(Error::UnknownMessageTypeId(99))
    ));

    let inconsistent = Message {
        header: ChunkMessageHeader {
            timestamp: 0,
            message_length: 5,
            message_type_id: 9,
            message_stream_id: 0,
            timestamp_delta: 0,
        },
        message: vec![1, 2, 3],
    };
    assert!(matches!(
        server.handle_message(&mut registry, inconsistent, &mut out, &mut fanout),
        Err(Error::InconsistentMessageLength)
    ));

    let wrong_data = message(
        18,
        0,
        0,
        encode_amf_messages(&[AmfObject::String(String::from("somethingElse"))]),
    );
    assert!(matches!(
        server.handle_message(&mut registry, wrong_data, &mut out, &mut fanout),
        Err(Error::UnknownDataMessage)
    ));

    // audio before any publish or play has no media stream entry
    let audio = message(8, 0, 0, vec![0xAF]);
    assert!(matches!(
        server.handle_message(&mut registry, audio, &mut out, &mut fanout),
        Err(Error::MissingMediaStream)
    ));

    assert!(matches!(Error::Io.message().as_str(), s if !s.is_empty()));
}

#[test]
fn offline_subscribers_are_pruned() {
    let mut publisher = RtmpServer::new(1);
    let mut s2 = RtmpServer::new(2);
    let mut s3 = RtmpServer::new(3);
    let mut registry: Registry = Vec::new();
    drive(&mut publisher, &mut registry, publish_command("live"));
    drive(&mut s2, &mut registry, play_command("live"));
    drive(&mut s3, &mut registry, play_command("live"));
    assert_eq!(registry[0].1.clients.len(), 2);
    let offline = vec![2u64];
    registry_remove_offline(&mut registry, &String::from("live"), &offline);
    assert_eq!(registry[0].1.clients.len(), 1);
    assert_eq!(registry[0].1.clients[0].id, 3);
    let (_, fanout, _) = drive(&mut publisher, &mut registry, message(9, 1, 0, vec![9]));
    assert_eq!(fanout.len(), 1);
    assert_eq!(fanout[0].0, 3);
}

#[test]
fn on_status_payload_decodes() {
    let payload = on_status("NetStream.Play.Start");
    let mut reader = rtmp_relay::utils::ByteReader::new(&payload);
    let first = rtmp_relay::amf::decode_amf_message(&mut reader).unwrap();
    assert!(matches!(first, AmfObject::String(s) if s == "onStatus"));
    let lookup = registry_lookup(&Vec::new(), &String::from("missing"));
    assert!(lookup.is_none());
}

#[test]
fn seek_is_refused_on_live_streams() {
    let mut server = RtmpServer::new(1);
    let mut registry: Registry = Vec::new();
    let seek = command(&[
        AmfObject::String(String::from("seek")),
        AmfObject::Number(0.0_f64.to_bits()),
        AmfObject::Null,
        AmfObject::Number(1000.0_f64.to_bits()),
    ]);
    let (out, _, done) = drive(&mut server, &mut registry, seek);
    assert!(!done);
    assert!(contains_subslice(&out, "NetStream.Seek.Notify".as_bytes()));
    assert!(contains_subslice(&out, "error".as_bytes()));
}

#[test]
fn control_messages_are_recorded() {
    let mut server = RtmpServer::new(1);
    let mut registry: Registry = Vec::new();
    // window acknowledgement size: four bytes
    let (out, fanout, done) = drive(&mut server, &mut registry, message(5, 0, 0, 1048576u32.to_be_bytes().to_vec()));
    assert!(out.is_empty() && fanout.is_empty() && !done);
    // peer bandwidth: four bytes and a limit type
    let mut bw = 1048576u32.to_be_bytes().to_vec();
    bw.push(2);
    let (out, fanout, done) = drive(&mut server, &mut registry, message(6, 0, 0, bw));
    assert!(out.is_empty() && fanout.is_empty() && !done);
    // acknowledgement: a cumulative sequence number
    let (out, _, done) = drive(&mut server, &mut registry, message(3, 0, 0, 512u32.to_be_bytes().to_vec()));
    assert!(out.is_empty() && !done);
    // user control: a stream-begin event
    let (out, _, done) = drive(&mut server, &mut registry, message(4, 0, 0, vec![0, 0, 0, 0, 0, 0]));
    assert!(out.is_empty() && !done);
    // user control: set buffer length carries ten bytes
    let mut sbl = vec![0u8, 3];
    sbl.extend_from_slice(&1u32.to_be_bytes());
    sbl.extend_from_slice(&3000u32.to_be_bytes());
    let (out, _, done) = drive(&mut server, &mut registry, message(4, 0, 0, sbl));
    assert!(out.is_empty() && !done);
    // a short peer bandwidth payload is rejected
    let mut out = Vec::new();
    let mut fanout = Vec::new();
    let res = server.handle_message(&mut registry, message(6, 0, 0, vec![0, 0]), &mut out, &mut fanout);
    assert!(matches!(res, Err(Error::InconsistentMessageLength)));
}
