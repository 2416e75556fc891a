use transport_io::framing::big_endian::{decode_be, encode_be};
use transport_io::framing::frame::{
    encode_frame, extended_length_size, parse_frame, parse_header, Frame, FrameError, Opcode,
};

/// The frame as its description lays it out, built bit by bit: FIN, 3-bit
/// opcode, 7-bit length code, 16 or 64 bits of extended length where the
/// code is 126 or 127, the payload, and zero bits to a whole byte.
fn bit_packed(is_final: bool, opcode: u8, payload: &[u8]) -> Vec<u8> {
    let mut bits: Vec<bool> = Vec::new();
    let mut push = |value: u64, width: u32| {
        for i in (0..width).rev() {
            bits.push((value >> i) & 1 == 1);
        }
    };
    let len = payload.len() as u64;
    push(is_final as u64, 1);
    push(opcode as u64, 3);
    if len <= 125 {
        push(len, 7);
    } else if len <= 65535 {
        push(126, 7);
        push(len, 16);
    } else {
        push(127, 7);
        push(len, 64);
    }
    for b in payload {
        push(*b as u64, 8);
    }
    while bits.len() % 8 != 0 {
        bits.push(false);
    }
    bits.chunks(8).map(|c| c.iter().fold(0u8, |acc, b| (acc << 1) | *b as u8)).collect()
}

const ALL_OPCODES: [Opcode; 8] = [
    Opcode::Continuation,
    Opcode::Text,
    Opcode::Binary,
    Opcode::Reserved3,
    Opcode::Reserved4,
    Opcode::DiscardMessage,
    Opcode::Reserved6,
    Opcode::Reserved7,
];

#[test]
fn big_endian_two_bytes() {
    assert_eq!(encode_be(0x1234, 2), vec![0x12, 0x34]);
    assert_eq!(decode_be(&[0xaa, 0x12, 0x34, 0xbb], 1, 2), 0x1234);
}

#[test]
fn big_endian_eight_bytes() {
    assert_eq!(encode_be(0x0102_0304_0506_0708, 8), vec![1, 2, 3, 4, 5, 6, 7, 8]);
    assert_eq!(encode_be(u64::MAX, 8), vec![0xff; 8]);
    assert_eq!(decode_be(&[1, 2, 3, 4, 5, 6, 7, 8], 0, 8), 0x0102_0304_0506_0708);
    assert_eq!(decode_be(&[9, 9], 1, 0), 0);
}

#[test]
fn big_endian_matches_std() {
    for v in [0u64, 1, 255, 256, 65535, 65536, 1 << 40, u64::MAX - 1] {
        assert_eq!(encode_be(v, 8), v.to_be_bytes().to_vec());
        assert_eq!(decode_be(&v.to_be_bytes(), 0, 8), v);
    }
    for v in [0u16, 1, 126, 0xbeef, u16::MAX] {
        assert_eq!(encode_be(v as u64, 2), v.to_be_bytes().to_vec());
    }
}

#[test]
fn opcode_values() {
    for (i, op) in ALL_OPCODES.iter().enumerate() {
        assert_eq!(op.bits() as usize, i);
        assert_eq!(Opcode::from_bits(i as u8), *op);
        assert_eq!(Opcode::from_bits(i as u8 + 8), *op);
    }
}

#[test]
fn frame_bit_layout_examples() {
    // FIN 1, opcode 010, length code 0000001, payload 11111111, padding 00000.
    assert_eq!(encode_frame(&Frame::new(true, Opcode::Binary, vec![0xff])), vec![0xa0, 0x3f, 0xe0]);
    // FIN 1, opcode 010, length code 0000011, payload 1, 2, 3, padding.
    assert_eq!(
        encode_frame(&Frame::new(true, Opcode::Binary, vec![1, 2, 3])),
        vec![0xa0, 0x60, 0x20, 0x40, 0x60]
    );
    assert_eq!(encode_frame(&Frame::new(false, Opcode::Continuation, vec![])), vec![0x00, 0x00]);
    assert_eq!(encode_frame(&Frame::new(true, Opcode::Text, vec![])), vec![0x90, 0x00]);
}

#[test]
fn frame_bit_layout_at_every_header_size() {
    for len in [0usize, 1, 2, 7, 125, 126, 127, 200, 1024, 65535, 65536, 70000] {
        for fin in [false, true] {
            for op in ALL_OPCODES {
                let content: Vec<u8> = (0..len).map(|i| (i * 37 % 256) as u8).collect();
                let bytes = encode_frame(&Frame::new(fin, op, content.clone()));
                assert_eq!(bytes, bit_packed(fin, op.bits(), &content));
            }
        }
    }
}

#[test]
fn frame_sizes() {
    for (len, header) in [(0usize, 2usize), (125, 2), (126, 4), (65535, 4), (65536, 10)] {
        let bytes = encode_frame(&Frame::new(false, Opcode::Binary, vec![1; len]));
        assert_eq!(bytes.len(), header + len);
    }
}

#[test]
fn extended_length_sizes() {
    assert_eq!(extended_length_size(0xa0, 0x60), 0);
    assert_eq!(extended_length_size(0x0f, 0xa0), 0);
    assert_eq!(extended_length_size(0x2f, 0xc0), 2);
    assert_eq!(extended_length_size(0xff, 0xdf), 2);
    assert_eq!(extended_length_size(0x0f, 0xe0), 8);
    assert_eq!(extended_length_size(0x8f, 0xff), 8);
}

#[test]
fn parse_header_values() {
    let (h, n) = parse_header(&[0xa0, 0x60]).unwrap();
    assert!(h.is_final());
    assert_eq!(h.opcode(), Opcode::Binary);
    assert_eq!(h.payload_length(), 3);
    assert_eq!(n, 2);
    // Length code 126, then 0x0100 shifted three bits.
    let (h, n) = parse_header(&[0x2f, 0xc0, 0x20, 0x00, 0xaa]).unwrap();
    assert!(!h.is_final());
    assert_eq!(h.opcode(), Opcode::Binary);
    assert_eq!(h.payload_length(), 256);
    assert_eq!(n, 4);
    let bytes = bit_packed(true, 5, &vec![0; 65536]);
    let (h, n) = parse_header(&bytes[..10]).unwrap();
    assert!(h.is_final());
    assert_eq!(h.opcode(), Opcode::DiscardMessage);
    assert_eq!(h.payload_length(), 65536);
    assert_eq!(n, 10);
}

#[test]
fn parse_header_unexpected_end() {
    assert_eq!(parse_header(&[]), Err(FrameError::UnexpectedEnd));
    assert_eq!(parse_header(&[0x90]), Err(FrameError::UnexpectedEnd));
    assert_eq!(parse_header(&[0x2f, 0xc0, 1]), Err(FrameError::UnexpectedEnd));
    assert_eq!(parse_header(&[0x0f, 0xe0, 0, 0, 0, 0, 0, 1, 0]), Err(FrameError::UnexpectedEnd));
}

#[test]
fn parse_header_non_minimal_length() {
    // Length code 126, extended length 5.
    assert_eq!(parse_header(&[0x2f, 0xc0, 0x00, 0xa0]), Err(FrameError::NonMinimalLength));
    // Length code 126, extended length 0.
    assert_eq!(parse_header(&[0xaf, 0xc0, 0, 0]), Err(FrameError::NonMinimalLength));
    // Length code 127, extended length 65535.
    let mut bytes = vec![0x2f, 0xe0, 0, 0, 0, 0, 0, 0x1f, 0xff];
    bytes.push(0xe0);
    assert_eq!(parse_header(&bytes), Err(FrameError::NonMinimalLength));
}

#[test]
fn parse_frame_non_zero_padding() {
    assert!(matches!(parse_frame(&[0xa0, 0x3f, 0xe1]), Err(FrameError::NonZeroPadding)));
    assert!(matches!(parse_frame(&[0x90, 0x01]), Err(FrameError::NonZeroPadding)));
}

#[test]
fn frame_error_messages() {
    assert_eq!(FrameError::UnexpectedEnd.message(), "frame ends early");
    assert_eq!(FrameError::NonZeroPadding.message(), "frame padding bits are not zero");
    assert_eq!(
        FrameError::NonMinimalLength.message(),
        "payload length not written in the fewest bytes"
    );
}

#[test]
fn parse_frame_with_trailing_bytes() {
    let (frame, n) = parse_frame(&[0xa0, 0x3f, 0xe0, 9, 9]).unwrap();
    assert_eq!(n, 3);
    assert!(frame.header().is_final());
    assert_eq!(frame.header().opcode(), Opcode::Binary);
    assert_eq!(frame.header().payload_length(), 1);
    assert_eq!(frame.get_content(), vec![0xff]);
}

#[test]
fn parse_frame_truncated_payload() {
    assert!(matches!(parse_frame(&[0x10, 0x60, 1, 2]), Err(FrameError::UnexpectedEnd)));
    assert!(matches!(parse_frame(&[0x2f, 0xc0, 0x20, 0x00, 7]), Err(FrameError::UnexpectedEnd)));
}

#[test]
fn parse_frame_empty_payload() {
    let (frame, n) = parse_frame(&[0x00, 0x00]).unwrap();
    assert_eq!(n, 2);
    assert!(!frame.header().is_final());
    assert_eq!(frame.header().opcode(), Opcode::Continuation);
    assert!(frame.get_content().is_empty());
}

#[test]
fn staged_read_matches_whole_read() {
    let content: Vec<u8> = (0..300).map(|i| i as u8).collect();
    let bytes = encode_frame(&Frame::new(true, Opcode::Text, content.clone()));
    let k = extended_length_size(bytes[0], bytes[1]);
    let (h, n) = parse_header(&bytes[..2 + k]).unwrap();
    assert_eq!(n, 2 + k);
    assert_eq!(n + h.payload_length() as usize, bytes.len());
    let (frame, m) = parse_frame(&bytes).unwrap();
    assert_eq!(m, bytes.len());
    assert_eq!(frame.get_content(), content);
}

#[test]
fn frame_accessors() {
    let frame = Frame::new(false, Opcode::Text, vec![7; 300]);
    assert!(!frame.header().is_final());
    assert_eq!(frame.header().opcode(), Opcode::Text);
    assert_eq!(frame.header().payload_length(), 300);
    assert_eq!(frame.get_content(), vec![7; 300]);
}

#[test]
fn frame_roundtrip_at_every_header_size() {
    for len in [0usize, 1, 125, 126, 127, 1024, 65535, 65536, 70000] {
        for fin in [false, true] {
            for op in ALL_OPCODES {
                let content: Vec<u8> = (0..len).map(|i| (i % 251) as u8).collect();
                let mut bytes = encode_frame(&Frame::new(fin, op, content.clone()));
                let written = bytes.len();
                bytes.extend_from_slice(&[0xde, 0xad]);
                let (frame, n) = parse_frame(&bytes).unwrap();
                assert_eq!(n, written);
                assert_eq!(frame.header().is_final(), fin);
                assert_eq!(frame.header().opcode(), op);
                assert_eq!(frame.get_content(), content);
            }
        }
    }
}
