use transport_io::framing::frame::{encode_frame, Frame, FrameError, Opcode};
use transport_io::framing::message::{
    decode_message, encode_message, message_frames, MessageAssembler, MessageReadError,
    MAX_CHUNK_SIZE_BYTES, MAX_MESSAGE_SIZE_BYTES,
};

fn pattern(len: usize) -> Vec<u8> {
    (0..len).map(|i| (i * 7 % 256) as u8).collect()
}

fn encode(buf: &[u8]) -> Vec<u8> {
    encode_message(buf, MAX_CHUNK_SIZE_BYTES)
}

fn decode(bytes: &[u8]) -> Result<(Vec<u8>, usize), MessageReadError> {
    decode_message(bytes, MAX_MESSAGE_SIZE_BYTES)
}

fn frame_bytes(is_final: bool, opcode: Opcode, content: &[u8]) -> Vec<u8> {
    encode_frame(&Frame::new(is_final, opcode, content.to_vec()))
}

#[test]
fn test_read_and_write() {
    let fx_msg = String::from("Hi, this is sample text");
    let bytes = encode(fx_msg.as_bytes());
    assert_eq!(bytes, frame_bytes(true, Opcode::Binary, fx_msg.as_bytes()));
    assert_eq!(bytes.len(), 25);
    assert_eq!(bytes[0], 0xa2);
    let (message, n) = decode(&bytes).unwrap();
    assert_eq!(n, bytes.len());
    let mut s = String::new();
    s += std::str::from_utf8(&message).unwrap();
    assert_eq!(s, fx_msg);
}

#[test]
fn limits() {
    assert_eq!(MAX_MESSAGE_SIZE_BYTES, 65535);
    assert_eq!(MAX_CHUNK_SIZE_BYTES, 1024);
}

#[test]
fn empty_message() {
    let frames = message_frames(&[], MAX_CHUNK_SIZE_BYTES);
    assert_eq!(frames.len(), 1);
    assert!(frames[0].header().is_final());
    assert_eq!(frames[0].header().opcode(), Opcode::Binary);
    assert_eq!(frames[0].header().payload_length(), 0);
    let bytes = encode(&[]);
    assert_eq!(bytes, vec![0xa0, 0x00]);
    assert_eq!(decode(&bytes).unwrap(), (vec![], 2));
}

#[test]
fn one_chunk_message() {
    let frames = message_frames(&pattern(1024), MAX_CHUNK_SIZE_BYTES);
    assert_eq!(frames.len(), 1);
    assert!(frames[0].header().is_final());
    assert_eq!(frames[0].header().opcode(), Opcode::Binary);
    assert_eq!(frames[0].header().payload_length(), 1024);
}

#[test]
fn two_chunk_message() {
    let buf = pattern(1025);
    let frames = message_frames(&buf, MAX_CHUNK_SIZE_BYTES);
    assert_eq!(frames.len(), 2);
    assert!(!frames[0].header().is_final());
    assert_eq!(frames[0].header().opcode(), Opcode::Binary);
    assert_eq!(frames[0].header().payload_length(), 1024);
    assert!(frames[1].header().is_final());
    assert_eq!(frames[1].header().opcode(), Opcode::Continuation);
    assert_eq!(frames[1].header().payload_length(), 1);
    let bytes = encode(&buf);
    assert_eq!(bytes.len(), 4 + 1024 + 2 + 1);
    let mut expected = frame_bytes(false, Opcode::Binary, &buf[..1024]);
    expected.extend(frame_bytes(true, Opcode::Continuation, &buf[1024..]));
    assert_eq!(bytes, expected);
    assert_eq!(&bytes[..3], &[0x2f, 0xc0, 0x80]);
    assert_eq!(&bytes[1028..], &[0x80, 0x20 | (buf[1024] >> 3), (buf[1024] & 7) << 5]);
}

#[test]
fn chunks_join_to_message() {
    let buf = pattern(3000);
    let frames = message_frames(&buf, MAX_CHUNK_SIZE_BYTES);
    assert_eq!(frames.len(), 3);
    let mut joined = Vec::new();
    for (i, f) in frames.into_iter().enumerate() {
        assert_eq!(f.header().is_final(), i == 2);
        let expected = if i == 0 { Opcode::Binary } else { Opcode::Continuation };
        assert_eq!(f.header().opcode(), expected);
        joined.extend(f.get_content());
    }
    assert_eq!(joined, buf);
}

#[test]
fn other_chunk_sizes() {
    let buf = pattern(10);
    let frames = message_frames(&buf, 3);
    assert_eq!(frames.len(), 4);
    assert_eq!(frames[3].header().payload_length(), 1);
    let bytes = encode_message(&buf, 3);
    assert_eq!(decode_message(&bytes, 10).unwrap(), (buf.clone(), bytes.len()));
    assert!(matches!(decode_message(&bytes, 9), Err(MessageReadError::MessageSizeExceeded)));
}

#[test]
fn encoded_message_is_encoded_frames() {
    let buf = pattern(2500);
    let mut bytes = Vec::new();
    for f in message_frames(&buf, MAX_CHUNK_SIZE_BYTES).iter() {
        bytes.extend(encode_frame(f));
    }
    assert_eq!(bytes, encode(&buf));
}

#[test]
fn message_roundtrip_sizes() {
    for len in [0usize, 1, 125, 126, 1023, 1024, 1025, 2048, 4097, 65535] {
        let buf = pattern(len);
        let mut bytes = encode(&buf);
        let written = bytes.len();
        bytes.extend_from_slice(&[0x81, 0x42]);
        let (message, n) = decode(&bytes).unwrap();
        assert_eq!(n, written);
        assert_eq!(message, buf);
    }
}

#[test]
fn oversized_message_refused() {
    let bytes = encode(&pattern(65536));
    assert!(matches!(decode(&bytes), Err(MessageReadError::MessageSizeExceeded)));
}

#[test]
fn decode_frames_of_any_size() {
    let mut bytes = frame_bytes(false, Opcode::Text, b"ab");
    bytes.extend(frame_bytes(false, Opcode::Continuation, b""));
    bytes.extend(frame_bytes(true, Opcode::Continuation, b"c"));
    assert_eq!(bytes.len(), 9);
    bytes.push(0x99);
    assert_eq!(decode(&bytes).unwrap(), (b"abc".to_vec(), 9));
}

#[test]
fn discard_drops_partial_message() {
    let mut bytes = frame_bytes(false, Opcode::Binary, b"old");
    bytes.extend(frame_bytes(true, Opcode::DiscardMessage, b""));
    bytes.extend(frame_bytes(true, Opcode::Binary, b"new"));
    let n = bytes.len();
    assert_eq!(decode(&bytes).unwrap(), (b"new".to_vec(), n));
}

#[test]
fn out_of_place_frames_refused() {
    assert!(matches!(
        decode(&frame_bytes(true, Opcode::Continuation, b"x")),
        Err(MessageReadError::UnexpectedContinuation)
    ));
    let mut bytes = frame_bytes(false, Opcode::Binary, b"a");
    bytes.extend(frame_bytes(true, Opcode::Text, b"b"));
    assert!(matches!(decode(&bytes), Err(MessageReadError::UnfinishedMessage)));
    for op in [Opcode::Reserved3, Opcode::Reserved4, Opcode::Reserved6, Opcode::Reserved7] {
        assert!(matches!(
            decode(&frame_bytes(true, op, b"")),
            Err(MessageReadError::ReservedOpcode)
        ));
    }
}

#[test]
fn decode_invalid_frames() {
    assert!(matches!(decode(&[]), Err(MessageReadError::InvalidFrame(FrameError::UnexpectedEnd))));
    assert!(matches!(
        decode(&frame_bytes(false, Opcode::Binary, &[5])),
        Err(MessageReadError::InvalidFrame(FrameError::UnexpectedEnd))
    ));
    assert!(matches!(
        decode(&[0x20, 0x20, 0xa1]),
        Err(MessageReadError::InvalidFrame(FrameError::NonZeroPadding))
    ));
    assert!(matches!(
        decode(&[0xaf, 0xc0, 0, 3, 1, 2, 3]),
        Err(MessageReadError::InvalidFrame(FrameError::NonMinimalLength))
    ));
}

#[test]
fn message_read_error_messages() {
    assert_eq!(
        MessageReadError::MessageSizeExceeded.message(),
        Some("message size exceeded max message size limit")
    );
    assert_eq!(
        MessageReadError::InvalidFrame(FrameError::UnexpectedEnd).message(),
        Some("invalid frame")
    );
    assert_eq!(
        MessageReadError::UnexpectedContinuation.message(),
        Some("continuation frame without a message to continue")
    );
    assert_eq!(
        MessageReadError::UnfinishedMessage.message(),
        Some("new message before the current one is complete")
    );
    assert_eq!(MessageReadError::ReservedOpcode.message(), Some("reserved opcode"));
}

#[test]
fn assembler_joins_frames() {
    let mut a = MessageAssembler::new(MAX_MESSAGE_SIZE_BYTES);
    assert!(matches!(a.push_frame(Frame::new(false, Opcode::Binary, vec![1, 2])), Ok(None)));
    assert!(matches!(a.push_frame(Frame::new(false, Opcode::Continuation, vec![])), Ok(None)));
    match a.push_frame(Frame::new(true, Opcode::Continuation, vec![3])) {
        Ok(Some(m)) => assert_eq!(m, vec![1, 2, 3]),
        _ => panic!("message not completed"),
    }
    match a.push_frame(Frame::new(true, Opcode::Text, vec![4])) {
        Ok(Some(m)) => assert_eq!(m, vec![4]),
        _ => panic!("assembler did not start over"),
    }
}

#[test]
fn assembler_refusals_keep_state() {
    let mut a = MessageAssembler::new(MAX_MESSAGE_SIZE_BYTES);
    assert!(matches!(
        a.push_frame(Frame::new(true, Opcode::Continuation, vec![9])),
        Err(MessageReadError::UnexpectedContinuation)
    ));
    assert!(matches!(a.push_frame(Frame::new(false, Opcode::Binary, vec![1])), Ok(None)));
    assert!(matches!(
        a.push_frame(Frame::new(true, Opcode::Reserved4, vec![9])),
        Err(MessageReadError::ReservedOpcode)
    ));
    assert!(matches!(
        a.push_frame(Frame::new(true, Opcode::Binary, vec![9])),
        Err(MessageReadError::UnfinishedMessage)
    ));
    match a.push_frame(Frame::new(true, Opcode::Continuation, vec![2])) {
        Ok(Some(m)) => assert_eq!(m, vec![1, 2]),
        _ => panic!("message lost after a refused frame"),
    }
}

#[test]
fn assembler_discard() {
    let mut a = MessageAssembler::new(MAX_MESSAGE_SIZE_BYTES);
    assert!(matches!(a.push_frame(Frame::new(false, Opcode::Binary, vec![1])), Ok(None)));
    assert!(matches!(a.push_frame(Frame::new(true, Opcode::DiscardMessage, vec![])), Ok(None)));
    assert!(matches!(
        a.push_frame(Frame::new(true, Opcode::Continuation, vec![2])),
        Err(MessageReadError::UnexpectedContinuation)
    ));
}

#[test]
fn assembler_size_limit() {
    let mut a = MessageAssembler::new(MAX_MESSAGE_SIZE_BYTES);
    assert!(matches!(a.push_frame(Frame::new(false, Opcode::Binary, vec![0; 65000])), Ok(None)));
    match a.push_frame(Frame::new(true, Opcode::Continuation, vec![0; 535])) {
        Ok(Some(m)) => assert_eq!(m.len(), 65535),
        _ => panic!("a message of the largest size was refused"),
    }
    assert!(matches!(a.push_frame(Frame::new(false, Opcode::Binary, vec![0; 65000])), Ok(None)));
    assert!(matches!(
        a.push_frame(Frame::new(true, Opcode::Continuation, vec![0; 536])),
        Err(MessageReadError::MessageSizeExceeded)
    ));
    assert!(matches!(
        MessageAssembler::new(MAX_MESSAGE_SIZE_BYTES)
            .push_frame(Frame::new(false, Opcode::Binary, vec![0; 65536])),
        Err(MessageReadError::MessageSizeExceeded)
    ));
}
