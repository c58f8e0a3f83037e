use untitled_messenger::client::error::ClientError;
use untitled_messenger::client::net::FrameBuffer;
use untitled_messenger::protocol::error::ProtocolError;
use untitled_messenger::wire::CodecError;
use untitled_messenger::protocol::framing::{decode, encode, MAX_FRAME_SIZE};
use untitled_messenger::protocol::message::{MessageKind, ServerError};

/// The bytes of a `Send` to one recipient.
fn send_payload() -> Vec<u8> {
    let envelope = (
        1u64,
        [0xBBu8; 32],
        0u32,
        vec![1u8, 2, 3],
        None::<Vec<u8>>,
        b"test payload".to_vec(),
        Vec::<u8>::new(),
    );
    postcard::to_allocvec(&(2u32, vec![[0xAAu8; 32]], envelope)).unwrap()
}

/// The bytes of a `Subscribe`.
fn subscribe_payload() -> Vec<u8> {
    postcard::to_allocvec(&5u32).unwrap()
}

#[test]
fn encode_decode_round_trip() {
    let msg = send_payload();
    let frame = encode(&msg).expect("encode");
    assert!(frame.len() >= 4);
    let (decoded, consumed) = decode(&frame).expect("decode");
    assert_eq!(decoded, &msg[..]);
    assert_eq!(consumed, frame.len());
}

#[test]
fn encode_decode_server_message() {
    let msg = postcard::to_allocvec(&2u32).unwrap();
    let frame = encode(&msg).expect("encode");
    let (decoded, consumed) = decode(&frame).expect("decode");
    assert_eq!(decoded, &msg[..]);
    assert_eq!(consumed, frame.len());
}

#[test]
fn decode_incomplete_header() {
    let buf = [0u8; 3];
    let result = decode(&buf);
    assert!(matches!(result, Err(ProtocolError::Incomplete)));
}

#[test]
fn decode_incomplete_payload() {
    let msg = subscribe_payload();
    let frame = encode(&msg).expect("encode");
    let truncated = &frame[..frame.len() - 1];
    let result = decode(truncated);
    assert!(matches!(result, Err(ProtocolError::Incomplete)));
}

#[test]
fn decode_frame_too_large() {
    let len = (MAX_FRAME_SIZE + 1) as u32;
    let mut buf = Vec::new();
    buf.extend_from_slice(&len.to_be_bytes());
    let result = decode(&buf);
    assert!(matches!(result, Err(ProtocolError::FrameTooLarge(_))));
}

#[test]
fn partial_second_frame_not_consumed() {
    let msg = subscribe_payload();
    let mut buf = encode(&msg).expect("encode");
    buf.extend_from_slice(&[0, 0, 0, 10, 1, 2]);
    let (decoded, consumed) = decode(&buf).expect("decode first");
    assert_eq!(decoded, &msg[..]);
    let remaining = &buf[consumed..];
    let result = decode(remaining);
    assert!(matches!(result, Err(ProtocolError::Incomplete)));
}

#[test]
fn a_frame_is_its_length_and_its_payload() {
    assert_eq!(encode(&[7, 8, 9]).unwrap(), vec![0, 0, 0, 3, 7, 8, 9]);
    assert_eq!(encode(&[]).unwrap(), vec![0, 0, 0, 0]);
}

#[test]
fn the_largest_frame_is_still_a_frame() {
    let payload = vec![1u8; MAX_FRAME_SIZE];
    assert!(encode(&payload).is_ok());
    let larger = vec![1u8; MAX_FRAME_SIZE + 1];
    assert_eq!(
        encode(&larger),
        Err(ProtocolError::FrameTooLarge(MAX_FRAME_SIZE + 1))
    );
}

#[test]
fn every_protocol_error_has_its_words() {
    assert_eq!(
        ProtocolError::Encode(CodecError::UnexpectedEnd).to_string(),
        "encode failed: Hit the end of buffer, expected more data"
    );
    assert_eq!(ProtocolError::Decode(CodecError::BadUtf8).to_string(), "decode failed");
}

#[test]
fn a_codec_error_has_the_words_of_the_codec() {
    let words = [
        (CodecError::UnexpectedEnd, postcard::Error::DeserializeUnexpectedEnd),
        (CodecError::BadVarint, postcard::Error::DeserializeBadVarint),
        (CodecError::BadBool, postcard::Error::DeserializeBadBool),
        (CodecError::BadUtf8, postcard::Error::DeserializeBadUtf8),
        (CodecError::BadOption, postcard::Error::DeserializeBadOption),
        (CodecError::BadEnum, postcard::Error::DeserializeBadEnum),
        (CodecError::Custom, postcard::Error::SerdeDeCustom),
    ];
    for (own, outside) in words {
        assert_eq!(own.to_string(), outside.to_string());
    }
    assert_eq!(CodecError::Unlisted.to_string(), "unlisted error");
}

#[test]
fn message_kind_distinct() {
    assert_ne!(MessageKind::Direct, MessageKind::Group);
}

#[test]
fn a_message_is_direct_unless_it_says_otherwise() {
    assert_eq!(MessageKind::default(), MessageKind::Direct);
}

#[test]
fn server_error_variants_distinct() {
    assert_ne!(ServerError::UnknownRecipient, ServerError::InvalidSignature);
    assert_ne!(ServerError::MalformedFrame, ServerError::TooLarge);
    assert_ne!(ServerError::TooLarge, ServerError::NotRegistered);
    assert_ne!(ServerError::BadSender, ServerError::UnknownRecipient);
    assert_ne!(ServerError::BadSender, ServerError::InvalidSignature);
}

#[test]
fn frames_come_out_of_pieces() {
    let mut buffer = FrameBuffer::new();
    let mut bytes = encode(b"one").unwrap();
    bytes.extend(encode(b"").unwrap());
    bytes.extend(encode(b"three").unwrap());
    let mut out = Vec::new();
    for b in bytes {
        buffer.push(&[b]);
        while let Some(frame) = buffer.take_frame().unwrap() {
            out.push(frame);
        }
    }
    assert_eq!(out, vec![b"one".to_vec(), b"".to_vec(), b"three".to_vec()]);
    assert!(matches!(buffer.take_frame(), Ok(None)));
}

#[test]
fn a_frame_that_is_too_large_is_an_error_at_once() {
    let mut buffer = FrameBuffer::new();
    buffer.push(&[0xff, 0xff, 0xff, 0xff]);
    assert!(matches!(
        buffer.take_frame(),
        Err(ClientError::Protocol(ProtocolError::FrameTooLarge(0xffff_ffff)))
    ));
}
