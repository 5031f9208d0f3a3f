use frame_server::client::{encode_frame, respond, Action, Client, CHUNK_LEN, MAX_PAYLOAD_LEN};
use frame_server::dispatch::{on_get_events_request, on_message_received};
use frame_server::message::{
    decode_message, encode_message, only_unknown_fields, Body, Message, GET_EVENTS_REPLY,
    GET_EVENTS_REQUEST,
};
use frame_server::varint::{decode_varint32, decode_varint64};
use frame_server::wire::{
    decode_u32_from_be, encode_header, encode_u32_to_be, Error, EXPECTED_MAGIC_NUMBER,
};

const REPLY_FRAME: [u8; 12] = [0, 0, 0x30, 0x39, 0, 0, 0, 4, 8, 1, 26, 0];

fn frame(payload: &[u8]) -> Vec<u8> {
    let mut out = encode_header(EXPECTED_MAGIC_NUMBER, payload.len() as u32);
    out.extend_from_slice(payload);
    out
}

fn reply() -> Message {
    Message { kind: GET_EVENTS_REPLY, body: Body::GetEventsReply }
}

#[test]
fn encode_u32_writes_big_endian() {
    let mut buf = [0xAAu8; 6];
    assert_eq!(encode_u32_to_be(12345, &mut buf), Ok(()));
    assert_eq!(buf, [0, 0, 0x30, 0x39, 0xAA, 0xAA]);
    let mut buf = [0u8; 4];
    assert_eq!(encode_u32_to_be(0x0102_0304, &mut buf), Ok(()));
    assert_eq!(buf, [1, 2, 3, 4]);
}

#[test]
fn encode_u32_rejects_short_buffer() {
    let mut buf = [7u8; 3];
    assert_eq!(encode_u32_to_be(1, &mut buf), Err(Error::EncodeError));
    assert_eq!(buf, [7, 7, 7]);
}

#[test]
fn decode_u32_reads_big_endian() {
    assert_eq!(decode_u32_from_be(&[0, 0, 0x30, 0x39]), Ok(12345));
    assert_eq!(decode_u32_from_be(&[0xFF, 0xFF, 0xFF, 0xFF, 9]), Ok(u32::MAX));
    assert_eq!(decode_u32_from_be(&[1, 2, 3]), Err(Error::DecodeError));
    assert_eq!(decode_u32_from_be(&[]), Err(Error::DecodeError));
}

#[test]
fn header_is_magic_then_length() {
    assert_eq!(encode_header(12345, 513), vec![0, 0, 0x30, 0x39, 0, 0, 2, 1]);
}

#[test]
fn varint_values_and_failures() {
    assert_eq!(decode_varint32(&[0xAC, 0x02, 0x55], 0), Some((300, 2)));
    assert_eq!(decode_varint32(&[0x55, 0x7F], 1), Some((127, 1)));
    assert_eq!(decode_varint32(&[0xFF, 0xFF, 0xFF, 0xFF, 0x0F], 0), Some((u32::MAX, 5)));
    assert_eq!(decode_varint32(&[0xFF, 0xFF, 0xFF, 0xFF, 0x1F], 0), Some((u32::MAX, 5)));
    assert_eq!(decode_varint32(&[0x80, 0x80, 0x80, 0x80, 0x80, 0x00], 0), Some((0, 6)));
    assert_eq!(decode_varint32(&[0x81, 0x80, 0x80, 0x80, 0x10], 0), Some((1, 5)));
    let mut ten = vec![0x80u8; 9];
    ten.push(0x01);
    assert_eq!(decode_varint32(&ten, 0), Some((0, 10)));
    assert_eq!(decode_varint64(&ten, 0), Some((1u64 << 63, 10)));
    let eleven = vec![0x80u8; 10];
    assert_eq!(decode_varint64(&eleven, 0), None);
    let mut too_long = vec![0x80u8; 10];
    too_long.push(0x00);
    assert_eq!(decode_varint32(&too_long, 0), None);
    assert_eq!(decode_varint32(&[0x80], 0), None);
    assert_eq!(decode_varint32(&[1], 1), None);
}

#[test]
fn encode_message_bytes() {
    let request = Message { kind: GET_EVENTS_REQUEST, body: Body::Empty };
    assert_eq!(encode_message(&request), Vec::<u8>::new());
    assert_eq!(encode_message(&reply()), vec![8, 1, 26, 0]);
    let big = Message { kind: 300, body: Body::GetEventsRequest };
    assert_eq!(encode_message(&big), vec![8, 0xAC, 0x02, 18, 0]);
}

#[test]
fn message_round_trip() {
    let kinds = [0u32, 1, 2, 127, 128, 300, 16384, u32::MAX];
    let bodies = [Body::Empty, Body::GetEventsRequest, Body::GetEventsReply];
    for kind in kinds {
        for body in bodies {
            let m = Message { kind, body };
            assert_eq!(decode_message(&encode_message(&m)), Ok(m));
        }
    }
}

#[test]
fn decode_empty_payload_is_request() {
    assert_eq!(
        decode_message(&[]),
        Ok(Message { kind: GET_EVENTS_REQUEST, body: Body::Empty })
    );
}

#[test]
fn decode_later_field_wins_and_nested_bytes_skipped() {
    assert_eq!(
        decode_message(&[8, 5, 18, 2, 40, 7, 8, 1, 26, 0]),
        Ok(Message { kind: 1, body: Body::GetEventsReply })
    );
}

#[test]
fn decode_failures() {
    assert_eq!(decode_message(&[7]), Err(Error::DecodeError));
    assert_eq!(decode_message(&[0, 0]), Err(Error::DecodeError));
    assert_eq!(decode_message(&[46, 0]), Err(Error::DecodeError));
    assert_eq!(decode_message(&[8]), Err(Error::DecodeError));
    assert_eq!(decode_message(&[18, 5, 0]), Err(Error::DecodeError));
    assert_eq!(decode_message(&[8, 0x80]), Err(Error::DecodeError));
    assert_eq!(decode_message(&[9, 1, 2, 3, 4, 5, 6, 7, 8]), Err(Error::DecodeError));
    assert_eq!(decode_message(&[16, 0]), Err(Error::DecodeError));
    assert_eq!(decode_message(&[18, 2, 0xAA, 0xBB]), Err(Error::DecodeError));
    assert_eq!(decode_message(&[44]), Err(Error::DecodeError));
    assert_eq!(decode_message(&[43, 51, 52, 44]), Err(Error::DecodeError));
    assert_eq!(decode_message(&[43, 48, 1]), Err(Error::DecodeError));
    assert_eq!(decode_message(&[41, 1, 2, 3]), Err(Error::DecodeError));
    assert_eq!(decode_message(&[42, 3, 1]), Err(Error::DecodeError));
}

#[test]
fn decode_skips_unknown_fields() {
    let request = Ok(Message { kind: GET_EVENTS_REQUEST, body: Body::Empty });
    assert_eq!(decode_message(&[40, 1]), request);
    assert_eq!(decode_message(&[40, 0]), request);
    assert_eq!(decode_message(&[41, 1, 2, 3, 4, 5, 6, 7, 8]), request);
    assert_eq!(decode_message(&[45, 1, 2, 3, 4]), request);
    assert_eq!(decode_message(&[42, 2, 0xAA, 0xBB]), request);
    assert_eq!(decode_message(&[43, 48, 1, 49, 1, 2, 3, 4, 5, 6, 7, 8, 44]), request);
    assert_eq!(decode_message(&[43, 60]), request);
    assert_eq!(
        decode_message(&[40, 1, 8, 1, 0xC2, 0x3E, 1, 9, 26, 0]),
        Ok(Message { kind: 1, body: Body::GetEventsReply })
    );
}

#[test]
fn decode_discriminant_keeps_low_bits() {
    let mut payload = vec![8u8];
    payload.extend_from_slice(&[0xFF; 9]);
    payload.push(0x01);
    assert_eq!(
        decode_message(&payload),
        Ok(Message { kind: u32::MAX, body: Body::Empty })
    );
}

#[test]
fn nested_bodies_hold_only_unknown_fields() {
    assert!(only_unknown_fields(&[]));
    assert!(only_unknown_fields(&[40, 7, 45, 1, 2, 3, 4]));
    assert!(!only_unknown_fields(&[0xAA, 0xBB]));
    assert!(!only_unknown_fields(&[44]));
    assert_eq!(
        decode_message(&[18, 4, 40, 7, 16, 1]),
        Ok(Message { kind: GET_EVENTS_REQUEST, body: Body::GetEventsRequest })
    );
}

#[test]
fn dispatch_routes_request_only() {
    let request = Message { kind: GET_EVENTS_REQUEST, body: Body::GetEventsRequest };
    assert_eq!(on_message_received(&request), Some(reply()));
    assert_eq!(on_get_events_request(&request), reply());
    for kind in [1u32, 2, 99, u32::MAX] {
        let m = Message { kind, body: Body::Empty };
        assert_eq!(on_message_received(&m), None);
    }
}

#[test]
fn encode_frame_wraps_reply() {
    assert_eq!(encode_frame(&reply()), REPLY_FRAME.to_vec());
}

#[test]
fn respond_decodes_and_frames() {
    assert_eq!(respond(&[]), Some(REPLY_FRAME.to_vec()));
    assert_eq!(respond(&[8, 1]), None);
    assert_eq!(respond(&[7]), None);
}

#[test]
fn empty_request_gets_one_reply() {
    let input = [0, 0, 0x30, 0x39, 0, 0, 0, 0];
    assert_eq!(Client::new().exec(&input), REPLY_FRAME.to_vec());
}

#[test]
fn wrong_magic_closes_without_reply() {
    let input = [0, 0, 0, 1, 0, 0, 0, 0];
    assert_eq!(Client::new().exec(&input), Vec::<u8>::new());
    let mut client = Client::new();
    assert_eq!(client.wanted(), 4);
    assert!(matches!(client.receive(&[0, 0, 0, 1]), Action::Close));
}

#[test]
fn wrong_magic_after_good_frame_stops_there() {
    let mut input = frame(&[]);
    input.extend_from_slice(&[0, 0, 0, 1]);
    input.extend_from_slice(&frame(&[]));
    assert_eq!(Client::new().exec(&input), REPLY_FRAME.to_vec());
}

#[test]
fn two_requests_get_two_replies_in_order() {
    let mut input = frame(&[18, 0]);
    input.extend_from_slice(&frame(&[]));
    let mut expected = REPLY_FRAME.to_vec();
    expected.extend_from_slice(&REPLY_FRAME);
    assert_eq!(Client::new().exec(&input), expected);
}

#[test]
fn bad_payload_is_dropped_and_session_continues() {
    let mut input = frame(&[7, 7, 7]);
    input.extend_from_slice(&frame(&[]));
    assert_eq!(Client::new().exec(&input), REPLY_FRAME.to_vec());
}

#[test]
fn request_with_unknown_field_gets_reply() {
    let input = frame(&[40, 1]);
    assert_eq!(Client::new().exec(&input), REPLY_FRAME.to_vec());
}

#[test]
fn length_over_limit_closes_without_reply() {
    let mut client = Client::with_limit(3);
    let input = frame(&[40, 1, 18, 0]);
    assert_eq!(client.exec(&input), Vec::<u8>::new());
    let mut client = Client::with_limit(4);
    assert_eq!(client.exec(&input), REPLY_FRAME.to_vec());
    let mut client = Client::new();
    assert!(matches!(client.receive(&[0, 0, 0x30, 0x39]), Action::Read(4)));
    let over = (MAX_PAYLOAD_LEN + 1).to_be_bytes();
    assert!(matches!(client.receive(&over), Action::Close));
    let mut client = Client::new();
    assert!(matches!(client.receive(&[0, 0, 0x30, 0x39]), Action::Read(4)));
    let at = MAX_PAYLOAD_LEN.to_be_bytes();
    assert!(matches!(client.receive(&at), Action::Read(CHUNK_LEN)));
}

#[test]
fn unknown_kind_gets_no_reply() {
    let mut input = frame(&[8, 42]);
    input.extend_from_slice(&frame(&[]));
    assert_eq!(Client::new().exec(&input), REPLY_FRAME.to_vec());
}

#[test]
fn short_payload_closes_without_reply() {
    let mut input = encode_header(EXPECTED_MAGIC_NUMBER, 4);
    input.extend_from_slice(&[18, 0]);
    assert_eq!(Client::new().exec(&input), Vec::<u8>::new());
    let input = [0, 0, 0x30, 0x39, 0, 0];
    assert_eq!(Client::new().exec(&input), Vec::<u8>::new());
}

#[test]
fn long_payload_is_read_in_chunks() {
    let mut payload = Vec::new();
    for _ in 0..300 {
        payload.extend_from_slice(&[8, 0]);
    }
    let input = frame(&payload);
    let mut client = Client::new();
    let mut sizes = Vec::new();
    let mut pos = 0usize;
    let mut replies = Vec::new();
    while pos < input.len() {
        let n = client.wanted();
        sizes.push(n);
        match client.receive(&input[pos..pos + n]) {
            Action::Read(next) => assert_eq!(next, client.wanted()),
            Action::Reply(bytes) => replies.push(bytes),
            Action::Close => panic!("closed"),
        }
        pos += n;
    }
    assert_eq!(sizes, vec![4, 4, CHUNK_LEN, 600 - CHUNK_LEN]);
    assert_eq!(replies, vec![REPLY_FRAME.to_vec()]);
    assert_eq!(client.wanted(), 4);
}

#[test]
fn long_payload_in_one_input() {
    let mut payload = Vec::new();
    for _ in 0..700 {
        payload.push(8);
        payload.push(0);
    }
    let mut input = frame(&payload);
    input.extend_from_slice(&frame(&[]));
    let mut expected = REPLY_FRAME.to_vec();
    expected.extend_from_slice(&REPLY_FRAME);
    assert_eq!(Client::new().exec(&input), expected);
}
