//! Frames, as a string of bits written most significant bit first: the FIN
//! bit, a 3-bit opcode, a 7-bit length code; when the code is 126 or 127,
//! the payload length in the next 16 or 64 bits, big-endian (otherwise the
//! code is the length); then the payload's bytes. The length is always
//! written in the fewest bits possible. The frame is closed with five zero
//! bits, which make it a whole number of bytes.
//!
//! So byte 0 holds the FIN bit, the opcode and the high four bits of the
//! length code; every later byte holds the low three bits of the byte
//! before it in the string (first the length code's) above the high five
//! bits of its own.

use vstd::prelude::*;

use super::big_endian::{
    be_bytes, be_value, decode_be, encode_be, lemma_be_bytes_len, lemma_be_value_of_bytes,
    lemma_bytes_of_be_value, lemma_pow256_eight,
};

verus! {

/// What a frame's payload is.
#[derive(Debug, Clone, Copy, PartialEq, Eq)]
pub enum Opcode {
    /// `0`: a further fragment of the message that an earlier frame began.
    Continuation,
    /// `1`: the first fragment of a text message.
    Text,
    /// `2`: the first fragment of a binary message.
    Binary,
    /// `3`: reserved for further non-control frames.
    Reserved3,
    /// `4`: reserved for further non-control frames.
    Reserved4,
    /// `5`: the message being received is to be discarded.
    DiscardMessage,
    /// `6`: reserved for further control frames.
    Reserved6,
    /// `7`: reserved.
    Reserved7,
}

/// The 3-bit value of an opcode.
pub open spec fn opcode_bits(op: Opcode) -> nat {
    match op {
        Opcode::Continuation => 0,
        Opcode::Text => 1,
        Opcode::Binary => 2,
        Opcode::Reserved3 => 3,
        Opcode::Reserved4 => 4,
        Opcode::DiscardMessage => 5,
        Opcode::Reserved6 => 6,
        Opcode::Reserved7 => 7,
    }
}

/// The opcode whose 3-bit value is `b`.
pub open spec fn opcode_of_bits(b: nat) -> Opcode {
    if b == 0 {
        Opcode::Continuation
    } else if b == 1 {
        Opcode::Text
    } else if b == 2 {
        Opcode::Binary
    } else if b == 3 {
        Opcode::Reserved3
    } else if b == 4 {
        Opcode::Reserved4
    } else if b == 5 {
        Opcode::DiscardMessage
    } else if b == 6 {
        Opcode::Reserved6
    } else {
        Opcode::Reserved7
    }
}

impl Opcode {
    /// The 3-bit value of the opcode.
    pub fn bits(&self) -> (r: u8)
        ensures
            r == opcode_bits(*self),
    {
        match self {
            Opcode::Continuation => 0,
            Opcode::Text => 1,
            Opcode::Binary => 2,
            Opcode::Reserved3 => 3,
            Opcode::Reserved4 => 4,
            Opcode::DiscardMessage => 5,
            Opcode::Reserved6 => 6,
            Opcode::Reserved7 => 7,
        }
    }

    /// The opcode written in the low three bits of `b`.
    pub fn from_bits(b: u8) -> (r: Opcode)
        ensures
            r == opcode_of_bits((b % 8) as nat),
    {
        let v = b % 8;
        if v == 0 {
            Opcode::Continuation
        } else if v == 1 {
            Opcode::Text
        } else if v == 2 {
            Opcode::Binary
        } else if v == 3 {
            Opcode::Reserved3
        } else if v == 4 {
            Opcode::Reserved4
        } else if v == 5 {
            Opcode::DiscardMessage
        } else if v == 6 {
            Opcode::Reserved6
        } else {
            Opcode::Reserved7
        }
    }
}

/// Why a sequence of bytes does not start with a frame.
#[derive(Debug, Clone, Copy, PartialEq, Eq)]
pub enum FrameError {
    /// The bytes end before the header or the payload does.
    UnexpectedEnd,
    /// The five bits that close the frame are not zero.
    NonZeroPadding,
    /// The payload length is written in more bytes than it needs.
    NonMinimalLength,
}

impl FrameError {
    /// A sentence that describes the error.
    pub fn message(&self) -> (r: &'static str)
        ensures
            *self == FrameError::UnexpectedEnd ==> r@ == "frame ends early"@,
            *self == FrameError::NonZeroPadding ==> r@ == "frame padding bits are not zero"@,
            *self == FrameError::NonMinimalLength ==> r@
                == "payload length not written in the fewest bytes"@,
    {
        match self {
            FrameError::UnexpectedEnd => "frame ends early",
            FrameError::NonZeroPadding => "frame padding bits are not zero",
            FrameError::NonMinimalLength => "payload length not written in the fewest bytes",
        }
    }
}

/// The header of a frame: whether it ends its message, its opcode, and how
/// many payload bytes follow the header.
#[derive(Debug, Clone, Copy, PartialEq, Eq)]
pub struct FrameHeader {
    is_final: bool,
    opcode: Opcode,
    payload_length: u64,
}

/// What a header says, as plain values.
pub struct FrameHeaderView {
    pub is_final: bool,
    pub opcode: Opcode,
    pub payload_length: nat,
}

impl View for FrameHeader {
    type V = FrameHeaderView;

    closed spec fn view(&self) -> FrameHeaderView {
        FrameHeaderView {
            is_final: self.is_final,
            opcode: self.opcode,
            payload_length: self.payload_length as nat,
        }
    }
}

impl FrameHeader {
    /// Whether the frame is the last fragment of its message.
    #[inline]
    pub fn is_final(&self) -> (r: bool)
        ensures
            r == self@.is_final,
    {
        self.is_final
    }

    /// What the frame's payload is.
    #[inline]
    pub fn opcode(&self) -> (r: Opcode)
        ensures
            r == self@.opcode,
    {
        self.opcode
    }

    /// The number of payload bytes that follow the header.
    #[inline]
    pub fn payload_length(&self) -> (r: u64)
        ensures
            r == self@.payload_length,
    {
        self.payload_length
    }
}

/// A frame: a header and the payload it announces.
#[derive(Debug)]
pub struct Frame {
    header: FrameHeader,
    content: Vec<u8>,
}

/// A frame as plain values: the FIN flag, the opcode and the payload.
pub struct FrameView {
    pub is_final: bool,
    pub opcode: Opcode,
    pub content: Seq<u8>,
}

impl View for Frame {
    type V = FrameView;

    closed spec fn view(&self) -> FrameView {
        FrameView {
            is_final: self.header.is_final,
            opcode: self.header.opcode,
            content: self.content@,
        }
    }
}

impl Frame {
    /// The header always announces exactly the payload that the frame holds.
    #[verifier::type_invariant]
    closed spec fn length_matches(self) -> bool {
        self.header.payload_length == self.content@.len()
    }

    /// A frame that holds `content`, final or not, with the given opcode.
    pub fn new(is_final: bool, opcode: Opcode, content: Vec<u8>) -> (r: Frame)
        ensures
            r@ == (FrameView { is_final, opcode, content: content@ }),
    {
        let payload_length = content.len() as u64;
        Frame { header: FrameHeader { is_final, opcode, payload_length }, content }
    }

    /// The frame's header.
    #[inline]
    pub fn header(&self) -> (r: &FrameHeader)
        ensures
            r@.is_final == self@.is_final,
            r@.opcode == self@.opcode,
            r@.payload_length == self@.content.len(),
    {
        proof {
            use_type_invariant(self);
        }
        &self.header
    }

    /// The frame's payload, giving up the frame.
    pub fn get_content(self) -> (r: Vec<u8>)
        ensures
            r@ == self@.content,
    {
        self.content
    }
}

/// The value of the FIN bit in the first byte.
pub open spec fn fin_bit(is_final: bool) -> nat {
    if is_final {
        128
    } else {
        0
    }
}

/// The 7-bit length code that announces a payload of `len` bytes: the length
/// itself up to 125, 126 for a 16-bit extended length, 127 for a 64-bit one.
pub open spec fn length_code(len: nat) -> nat {
    if len <= 125 {
        len
    } else if len <= 65535 {
        126
    } else {
        127
    }
}

/// The number of extended-length bytes announced by the length code `code`.
pub open spec fn extension_size(code: nat) -> nat {
    if code == 126 {
        2
    } else if code == 127 {
        8
    } else {
        0
    }
}

/// The length code held in the first two bytes `b0`, `b1` of a frame.
pub open spec fn code_of(b0: u8, b1: u8) -> nat {
    ((b0 % 16) * 8 + b1 / 32) as nat
}

/// The first byte of a frame: the FIN bit, the opcode and the high four
/// bits of the length code `code`.
pub open spec fn first_byte(is_final: bool, opcode: Opcode, code: nat) -> nat {
    fin_bit(is_final) + opcode_bits(opcode) * 16 + code / 8
}

/// The bit string made of the three bits `c`, then the bytes of `w`, then
/// five zero bits, cut into bytes: byte `i` holds the low three bits of
/// `w[i - 1]` (of `c` for the first) above the high five bits of `w[i]`
/// (zero for the last).
pub open spec fn spec_shift(c: nat, w: Seq<u8>) -> Seq<u8> {
    Seq::new(
        w.len() + 1,
        |i: int|
            ((if i == 0 {
                c
            } else {
                (w[i - 1] % 8) as nat
            }) * 32 + (if i < w.len() {
                (w[i] / 8) as nat
            } else {
                0
            })) as u8,
    )
}

/// The bytes that start three bits into `z`, as many as fit before its
/// last five bits: the inverse of `spec_shift`.
pub open spec fn spec_unshift(z: Seq<u8>) -> Seq<u8> {
    if z.len() == 0 {
        Seq::empty()
    } else {
        Seq::new((z.len() - 1) as nat, |i: int| ((z[i] % 32) * 8 + z[i + 1] / 32) as u8)
    }
}

/// The bytes of a frame.
#[verifier::opaque]
pub open spec fn spec_encode_frame(f: FrameView) -> Seq<u8> {
    let len = f.content.len();
    let code = length_code(len);
    seq![first_byte(f.is_final, f.opcode, code) as u8] + spec_shift(
        code % 8,
        be_bytes(len, extension_size(code)) + f.content,
    )
}

/// The header at the start of `s`: the FIN flag, opcode and payload length,
/// with the number of bytes that hold the header's bits (the last of them
/// shared with the payload or the closing bits), or why there is none.
pub open spec fn spec_parse_header(s: Seq<u8>) -> Result<(FrameHeaderView, nat), FrameError> {
    if s.len() < 2 {
        Err(FrameError::UnexpectedEnd)
    } else {
        let code = code_of(s[0], s[1]);
        let k = extension_size(code);
        if s.len() < 2 + k {
            Err(FrameError::UnexpectedEnd)
        } else {
            let len = if k == 0 {
                code
            } else {
                be_value(spec_unshift(s.subrange(1, (2 + k) as int)))
            };
            if length_code(len) != code {
                Err(FrameError::NonMinimalLength)
            } else {
                Ok(
                    (
                        FrameHeaderView {
                            is_final: s[0] >= 128,
                            opcode: opcode_of_bits(((s[0] / 16) % 8) as nat),
                            payload_length: len,
                        },
                        2 + k,
                    ),
                )
            }
        }
    }
}

/// The frame at the start of `s`, with the number of bytes it takes, or why
/// there is none.
pub open spec fn spec_parse_frame(s: Seq<u8>) -> Result<(FrameView, nat), FrameError> {
    match spec_parse_header(s) {
        Err(e) => Err(e),
        Ok((h, n)) => {
            let end = n + h.payload_length;
            if s.len() < end {
                Err(FrameError::UnexpectedEnd)
            } else if s[end - 1] % 32 != 0 {
                Err(FrameError::NonZeroPadding)
            } else {
                Ok(
                    (
                        FrameView {
                            is_final: h.is_final,
                            opcode: h.opcode,
                            content: spec_unshift(s.subrange(n - 1, end as int)),
                        },
                        end as nat,
                    ),
                )
            }
        },
    }
}

/// A header parse result as plain values.
pub open spec fn header_result_view(r: Result<(FrameHeader, usize), FrameError>) -> Result<
    (FrameHeaderView, nat),
    FrameError,
> {
    match r {
        Ok((h, n)) => Ok((h@, n as nat)),
        Err(e) => Err(e),
    }
}

/// A frame parse result as plain values.
pub open spec fn frame_result_view(r: Result<(Frame, usize), FrameError>) -> Result<
    (FrameView, nat),
    FrameError,
> {
    match r {
        Ok((f, n)) => Ok((f@, n as nat)),
        Err(e) => Err(e),
    }
}

/// The number of bytes that follow the first two bytes `b0`, `b1` of a
/// frame and hold the rest of its header: 0, 2 or 8.
pub fn extended_length_size(b0: u8, b1: u8) -> (n: usize)
    ensures
        n == extension_size(code_of(b0, b1)),
{
    let code = (b0 % 16) * 8 + b1 / 32;
    if code == 126 {
        2
    } else if code == 127 {
        8
    } else {
        0
    }
}

/// The bytes that start three bits into `bytes[from..to]`.
fn unshift_range(bytes: &[u8], from: usize, to: usize) -> (r: Vec<u8>)
    requires
        from < to <= bytes@.len(),
    ensures
        r@ == spec_unshift(bytes@.subrange(from as int, to as int)),
{
    let ghost z = bytes@.subrange(from as int, to as int);
    let mut r: Vec<u8> = Vec::new();
    let mut i = from;
    while i + 1 < to
        invariant
            from <= i < to,
            to <= bytes@.len(),
            z == bytes@.subrange(from as int, to as int),
            r@.len() == i - from,
            forall|j: int|
                0 <= j < r@.len() ==> #[trigger] r@[j] == ((z[j] % 32) * 8 + z[j + 1] / 32) as u8,
        decreases to - i,
    {
        let b = (bytes[i] % 32) * 8 + bytes[i + 1] / 32;
        assert(bytes[i as int] == z[i - from] && bytes[i + 1] == z[i - from + 1]);
        r.push(b);
        i = i + 1;
    }
    assert(r@ =~= spec_unshift(z));
    r
}

/// Appends to `out` the bit string of the three bits `c`, the bytes of `w`
/// and five zero bits, cut into bytes.
fn push_shifted(out: &mut Vec<u8>, c: u8, w: &[u8])
    requires
        c < 8,
    ensures
        final(out)@ == old(out)@ + spec_shift(c as nat, w@),
{
    let ghost sh = spec_shift(c as nat, w@);
    let mut prev: u8 = c;
    let mut i: usize = 0;
    while i < w.len()
        invariant
            i <= w@.len(),
            prev < 8,
            sh == spec_shift(c as nat, w@),
            prev == (if i == 0 {
                c as int
            } else {
                (w@[i - 1] % 8) as int
            }),
            out@ == old(out)@ + sh.take(i as int),
        decreases w@.len() - i,
    {
        let b = prev * 32 + w[i] / 8;
        assert(b == sh[i as int]);
        out.push(b);
        assert(sh.take(i + 1) =~= sh.take(i as int).push(b));
        prev = w[i] % 8;
        i = i + 1;
    }
    let last = prev * 32;
    assert(last == sh[i as int]);
    out.push(last);
    assert(sh.take(i + 1) =~= sh);
}

/// Parses the header that starts at `start` in `bytes`.
fn parse_header_at(bytes: &[u8], start: usize) -> (r: Result<(FrameHeader, usize), FrameError>)
    requires
        start <= bytes@.len(),
    ensures
        header_result_view(r) == spec_parse_header(bytes@.skip(start as int)),
        r matches Ok((_, n)) ==> start + n <= bytes@.len() && n >= 2,
{
    let ghost s = bytes@.skip(start as int);
    let len = bytes.len();
    if len - start < 2 {
        return Err(FrameError::UnexpectedEnd);
    }
    let b0 = bytes[start];
    let b1 = bytes[start + 1];
    assert(b0 == s[0] && b1 == s[1]);
    let is_final = b0 >= 128;
    let opcode = Opcode::from_bits(b0 / 16);
    let code = (b0 % 16) * 8 + b1 / 32;
    let k: usize = extended_length_size(b0, b1);
    if len - start < 2 + k {
        return Err(FrameError::UnexpectedEnd);
    }
    let payload_length: u64 = if k == 0 {
        code as u64
    } else {
        let ext = unshift_range(bytes, start + 1, start + 2 + k);
        assert(bytes@.subrange(start + 1, start + 2 + k) =~= s.subrange(1, 2 + k as int));
        assert(ext@.subrange(0, k as int) =~= ext@);
        decode_be(ext.as_slice(), 0, k)
    };
    let minimal = if payload_length <= 125 {
        payload_length == code as u64
    } else if payload_length <= 65535 {
        code == 126
    } else {
        code == 127
    };
    if !minimal {
        Err(FrameError::NonMinimalLength)
    } else {
        Ok((FrameHeader { is_final, opcode, payload_length }, 2 + k))
    }
}

/// Parses the header at the start of `bytes`: the FIN flag, the opcode, the
/// payload length and the number of bytes that hold the header's bits, or
/// why `bytes` does not start with a header (too short, or a length written
/// in more bits than it needs).
pub fn parse_header(bytes: &[u8]) -> (r: Result<(FrameHeader, usize), FrameError>)
    ensures
        header_result_view(r) == spec_parse_header(bytes@),
{
    assert(bytes@.skip(0) =~= bytes@);
    parse_header_at(bytes, 0)
}

/// The bytes `bytes[from..to]`, as a vector.
pub(crate) fn copy_range(bytes: &[u8], from: usize, to: usize) -> (r: Vec<u8>)
    requires
        from <= to <= bytes@.len(),
    ensures
        r@ == bytes@.subrange(from as int, to as int),
{
    let mut r: Vec<u8> = Vec::new();
    let mut i = from;
    while i < to
        invariant
            from <= i <= to,
            to <= bytes@.len(),
            r@ == bytes@.subrange(from as int, i as int),
        decreases to - i,
    {
        r.push(bytes[i]);
        i = i + 1;
        assert(r@ =~= bytes@.subrange(from as int, i as int));
    }
    r
}

/// Parses the frame that starts at `start` in `bytes`.
pub(crate) fn parse_frame_at(bytes: &[u8], start: usize) -> (r: Result<(Frame, usize), FrameError>)
    requires
        start <= bytes@.len(),
    ensures
        frame_result_view(r) == spec_parse_frame(bytes@.skip(start as int)),
        r matches Ok((_, n)) ==> start + n <= bytes@.len(),
{
    let ghost s = bytes@.skip(start as int);
    match parse_header_at(bytes, start) {
        Err(e) => Err(e),
        Ok((header, n)) => {
            let avail = bytes.len() - start - n;
            if (avail as u64) < header.payload_length {
                return Err(FrameError::UnexpectedEnd);
            }
            let pl = header.payload_length as usize;
            let end = start + n + pl;
            if bytes[end - 1] % 32 != 0 {
                return Err(FrameError::NonZeroPadding);
            }
            let content = unshift_range(bytes, start + n - 1, end);
            assert(bytes@.subrange(start + n - 1, end as int) =~= s.subrange(
                n - 1,
                (n + pl) as int,
            ));
            Ok((Frame { header, content }, n + pl))
        },
    }
}

/// Parses the frame at the start of `bytes`: the frame and the number of
/// bytes it takes, or why `bytes` does not start with a frame.
pub fn parse_frame(bytes: &[u8]) -> (r: Result<(Frame, usize), FrameError>)
    ensures
        frame_result_view(r) == spec_parse_frame(bytes@),
{
    assert(bytes@.skip(0) =~= bytes@);
    parse_frame_at(bytes, 0)
}

/// The bytes of `frame`.
pub fn encode_frame(frame: &Frame) -> (r: Vec<u8>)
    ensures
        r@ == spec_encode_frame(frame@),
{
    proof {
        use_type_invariant(frame);
        reveal(spec_encode_frame);
    }
    let payload_length = frame.header.payload_length;
    let (extra_bytes, code): (usize, u8) = if payload_length <= 125 {
        (0, payload_length as u8)
    } else if payload_length <= 65535 {
        (2, 126)
    } else {
        (8, 127)
    };
    proof {
        lemma_pow256_eight();
    }
    let mut w: Vec<u8> = if extra_bytes == 2 {
        encode_be(payload_length, 2)
    } else if extra_bytes == 8 {
        encode_be(payload_length, 8)
    } else {
        Vec::new()
    };
    w.extend_from_slice(frame.content.as_slice());
    assert(w@ =~= be_bytes(payload_length as nat, extension_size(code as nat)) + frame.content@);
    let fin: u8 = if frame.header.is_final {
        128
    } else {
        0
    };
    let b0: u8 = fin + frame.header.opcode.bits() * 16 + code / 8;
    let mut r: Vec<u8> = Vec::new();
    r.push(b0);
    push_shifted(&mut r, code % 8, w.as_slice());
    assert(r@ =~= spec_encode_frame(frame@));
    r
}

/// An opcode read back from its three bits is the opcode, and three bits
/// read as an opcode and written back are the bits.
pub proof fn lemma_opcode_bits(op: Opcode, b: nat)
    ensures
        opcode_bits(op) < 8,
        opcode_of_bits(opcode_bits(op)) == op,
        b < 8 ==> opcode_bits(opcode_of_bits(b)) == b,
{
}

/// A byte split at bit 5 and put back together is the byte: its high five
/// bits under three bits `p`, and its low three above five bits `q`.
proof fn lemma_byte_split(x: nat, p: nat, q: nat)
    requires
        x < 256,
        p < 8,
        q < 32,
    ensures
        (p * 32 + x / 8) % 32 == x / 8,
        (p * 32 + x / 8) / 32 == p,
        ((x % 8) * 32 + q) / 32 == x % 8,
        ((x % 8) * 32 + q) % 32 == q,
        (x / 8) * 8 + x % 8 == x,
        x / 8 < 32,
{
    assert((p * 32 + x / 8) % 32 == x / 8 && (p * 32 + x / 8) / 32 == p) by (nonlinear_arith)
        requires
            x < 256,
            p < 8,
    ;
    assert(((x % 8) * 32 + q) / 32 == x % 8 && ((x % 8) * 32 + q) % 32 == q) by (nonlinear_arith)
        requires
            q < 32,
    ;
    assert((x / 8) * 8 + x % 8 == x) by (nonlinear_arith);
}

/// Two bytes joined at bit 5: the byte `(a % 32) * 8 + b / 32` has `a`'s low
/// five bits above `b`'s high three.
proof fn lemma_byte_join(a: nat, b: nat)
    requires
        a < 256,
        b < 256,
    ensures
        ((a % 32) * 8 + b / 32) / 8 == a % 32,
        ((a % 32) * 8 + b / 32) % 8 == b / 32,
        ((a % 32) * 8 + b / 32) < 256,
        (a / 32) * 32 + a % 32 == a,
{
    assert(((a % 32) * 8 + b / 32) / 8 == a % 32 && ((a % 32) * 8 + b / 32) % 8 == b / 32)
        by (nonlinear_arith)
        requires
            b < 256,
    ;
    assert((a / 32) * 32 + a % 32 == a) by (nonlinear_arith);
}

/// The first two bytes of a frame, built from the FIN flag, the opcode
/// bits `opb`, the length code and five further bits `q`, give them back.
proof fn lemma_first_bytes_build(is_final: bool, opb: nat, code: nat, q: nat)
    requires
        opb < 8,
        code < 128,
        q < 32,
    ensures
        ({
            let b0 = fin_bit(is_final) + opb * 16 + code / 8;
            let b1 = (code % 8) * 32 + q;
            &&& b0 < 256
            &&& b1 < 256
            &&& (b0 >= 128) == is_final
            &&& (b0 / 16) % 8 == opb
            &&& (b0 % 16) * 8 + b1 / 32 == code
            &&& b1 / 32 == code % 8
        }),
{
    let f = fin_bit(is_final);
    let b0 = f + opb * 16 + code / 8;
    let b1 = (code % 8) * 32 + q;
    assert(b0 < 256 && (b0 >= 128) == (f == 128) && (b0 / 16) % 8 == opb && b0 % 16 == code / 8)
        by (nonlinear_arith)
        requires
            b0 == f + opb * 16 + code / 8,
            f == 0 || f == 128,
            opb < 8,
            code < 128,
    ;
    assert(b1 < 256 && b1 / 32 == code % 8) by (nonlinear_arith)
        requires
            b1 == (code % 8) * 32 + q,
            q < 32,
    ;
    assert((code / 8) * 8 + code % 8 == code) by (nonlinear_arith);
}

/// The first two bytes of a frame, taken apart into FIN flag, opcode bits
/// and length code and built back, are the bytes.
proof fn lemma_first_bytes_parts(b0: nat, b1: nat)
    requires
        b0 < 256,
        b1 < 256,
    ensures
        ({
            let code = (b0 % 16) * 8 + b1 / 32;
            let ob = (b0 / 16) % 8;
            &&& code < 128
            &&& ob < 8
            &&& b0 == fin_bit(b0 >= 128) + ob * 16 + code / 8
            &&& code % 8 == b1 / 32
        }),
{
    let code = (b0 % 16) * 8 + b1 / 32;
    let ob = (b0 / 16) % 8;
    assert(code < 128 && ob < 8 && b0 == fin_bit(b0 >= 128) + ob * 16 + code / 8 && code % 8
        == b1 / 32) by (nonlinear_arith)
        requires
            code == (b0 % 16) * 8 + b1 / 32,
            ob == (b0 / 16) % 8,
            b0 < 256,
            b1 < 256,
            fin_bit(b0 >= 128) == if b0 >= 128 {
                128nat
            } else {
                0nat
            },
    ;
}

/// Reading back shifted bytes gives the bytes.
pub proof fn lemma_unshift_shift(c: nat, w: Seq<u8>)
    requires
        c < 8,
    ensures
        spec_unshift(spec_shift(c, w)) == w,
        spec_shift(c, w).len() == w.len() + 1,
        spec_shift(c, w)[0] / 32 == c,
        spec_shift(c, w).last() % 32 == 0,
{
    let sh = spec_shift(c, w);
    assert forall|i: int| 0 <= i < w.len() implies #[trigger] spec_unshift(sh)[i] == w[i] by {
        let p: nat = if i == 0 {
            c
        } else {
            (w[i - 1] % 8) as nat
        };
        let q: nat = if i + 1 < w.len() {
            (w[i + 1] / 8) as nat
        } else {
            0
        };
        lemma_byte_split(w[i] as nat, p, q);
        if i + 1 < w.len() {
            lemma_byte_split(w[i + 1] as nat, 0, 0);
        }
    }
    assert(spec_unshift(sh) =~= w);
    if w.len() > 0 {
        lemma_byte_split(w[0] as nat, c, 0);
        lemma_byte_split(w.last() as nat, 0, 0);
    }
}

/// Shifting back the bytes read from `z` gives `z`, when `z` ends in five
/// zero bits.
pub proof fn lemma_shift_unshift(z: Seq<u8>)
    requires
        z.len() > 0,
        z.last() % 32 == 0,
    ensures
        spec_shift((z[0] / 32) as nat, spec_unshift(z)) == z,
{
    let u = spec_unshift(z);
    let sh = spec_shift((z[0] / 32) as nat, u);
    assert forall|i: int| 0 <= i < z.len() implies #[trigger] sh[i] == z[i] by {
        lemma_byte_join(z[i] as nat, 0);
        if i + 1 < z.len() {
            lemma_byte_join(z[i] as nat, z[i + 1] as nat);
        }
        if i > 0 {
            lemma_byte_join(z[i - 1] as nat, z[i] as nat);
        }
    }
    assert(sh =~= z);
}

/// Reading the bytes of a slice of `z` gives the matching slice of what is
/// read from `z`.
pub proof fn lemma_unshift_subrange(z: Seq<u8>, a: int, b: int)
    requires
        0 <= a <= b < z.len(),
    ensures
        spec_unshift(z.subrange(a, b + 1)) == spec_unshift(z).subrange(a, b),
{
    assert(spec_unshift(z.subrange(a, b + 1)) =~= spec_unshift(z).subrange(a, b));
}

/// The bits of a frame are laid out as its description says: its first
/// eleven bits, read as a number, are the FIN bit, the opcode and the length
/// code; each later byte of the extended length and of the payload starts
/// at bit `11 + 8 * j`, its high five bits the low five of byte `1 + j` and
/// its low three the high three of byte `2 + j`; the last five bits are zero.
pub proof fn lemma_frame_bits(f: FrameView)
    ensures
        ({
            let s = spec_encode_frame(f);
            let len = f.content.len();
            let code = length_code(len);
            let w = be_bytes(len, extension_size(code)) + f.content;
            &&& s.len() == 2 + w.len()
            &&& s[0] * 8 + s[1] / 32 == fin_bit(f.is_final) * 8 + opcode_bits(f.opcode) * 128
                + code
            &&& forall|j: int|
                0 <= j < w.len() ==> s[1 + j] % 32 == #[trigger] w[j] / 8 && s[2 + j] / 32 == w[j]
                    % 8
            &&& s.last() % 32 == 0
        }),
{
    reveal(spec_encode_frame);
    let s = spec_encode_frame(f);
    let len = f.content.len();
    let code = length_code(len);
    let c = code % 8;
    let w = be_bytes(len, extension_size(code)) + f.content;
    let sh = spec_shift(c, w);
    lemma_unshift_shift(c, w);
    assert(s =~= seq![first_byte(f.is_final, f.opcode, code) as u8] + sh);
    lemma_opcode_bits(f.opcode, 0);
    let b0 = first_byte(f.is_final, f.opcode, code);
    assert(b0 < 256);
    assert(s[0] == b0);
    assert(s[1] == sh[0]);
    let q: nat = if w.len() > 0 {
        (w[0] / 8) as nat
    } else {
        0
    };
    if w.len() > 0 {
        lemma_byte_split(w[0] as nat, c, 0);
    }
    assert(sh[0] as nat == c * 32 + q);
    assert(s[1] / 32 == c) by (nonlinear_arith)
        requires
            s[1] as nat == c * 32 + q,
            q < 32,
    ;
    assert(b0 * 8 + c == fin_bit(f.is_final) * 8 + opcode_bits(f.opcode) * 128 + code)
        by (nonlinear_arith)
        requires
            b0 == fin_bit(f.is_final) + opcode_bits(f.opcode) * 16 + code / 8,
            c == code % 8,
    ;
    assert forall|j: int| 0 <= j < w.len() implies s[1 + j] % 32 == #[trigger] w[j] / 8 && s[2
        + j] / 32 == w[j] % 8 by {
        let p: nat = if j == 0 {
            c
        } else {
            (w[j - 1] % 8) as nat
        };
        let q2: nat = if j + 1 < w.len() {
            (w[j + 1] / 8) as nat
        } else {
            0
        };
        if j + 1 < w.len() {
            lemma_byte_split(w[j + 1] as nat, 0, 0);
        }
        lemma_byte_split(w[j] as nat, p, q2);
        assert(s[1 + j] == sh[j] && s[2 + j] == sh[j + 1]);
    }
}

/// A frame takes two bytes, the 2 or 8 bytes of an extended length where
/// its payload exceeds 125 (resp. 65535) bytes, and its payload: the fewest
/// in which its length can be written.
pub proof fn lemma_frame_size(f: FrameView)
    ensures
        spec_encode_frame(f).len() == 2 + extension_size(length_code(f.content.len()))
            + f.content.len(),
        f.content.len() <= 125 ==> spec_encode_frame(f).len() == 2 + f.content.len(),
        126 <= f.content.len() <= 65535 ==> spec_encode_frame(f).len() == 4 + f.content.len(),
        65535 < f.content.len() ==> spec_encode_frame(f).len() == 10 + f.content.len(),
{
    reveal(spec_encode_frame);
    lemma_be_bytes_len(f.content.len(), extension_size(length_code(f.content.len())));
}

/// A payload of at most 125 bytes is announced by its own length: read as
/// a number, the first eleven bits of the frame are the FIN bit (1024), the
/// opcode (times 128) and the payload length, and the frame is two bytes
/// longer than its payload.
pub proof fn lemma_short_length_written(f: FrameView)
    requires
        f.content.len() <= 125,
    ensures
        ({
            let s = spec_encode_frame(f);
            &&& s.len() == f.content.len() + 2
            &&& s[0] * 8 + s[1] / 32 == (if f.is_final {
                1024int
            } else {
                0int
            }) + opcode_bits(f.opcode) * 128 + f.content.len()
        }),
{
    lemma_frame_bits(f);
    lemma_frame_size(f);
}

/// A payload of 126 to 65535 bytes is announced by the code 126, and its
/// length follows in the next sixteen bits: the frame's bits 11 to 26, read
/// as a number, are the payload length; the frame is four bytes longer than
/// its payload.
pub proof fn lemma_medium_length_written(f: FrameView)
    requires
        126 <= f.content.len() <= 65535,
    ensures
        ({
            let s = spec_encode_frame(f);
            &&& s.len() == f.content.len() + 4
            &&& s[0] * 8 + s[1] / 32 == (if f.is_final {
                1024int
            } else {
                0int
            }) + opcode_bits(f.opcode) * 128 + 126
            &&& ((s[1] % 32) * 8 + s[2] / 32) * 256 + (s[2] % 32) * 8 + s[3] / 32
                == f.content.len()
        }),
{
    let len = f.content.len();
    let w = be_bytes(len, 2) + f.content;
    lemma_frame_bits(f);
    lemma_frame_size(f);
    lemma_be_bytes_len(len, 2);
    lemma_pow256_eight();
    lemma_be_value_of_bytes(len, 2);
    let e = be_bytes(len, 2);
    assert(w[0] == e[0] && w[1] == e[1]);
    assert(e.drop_last().drop_last() =~= Seq::<u8>::empty());
    assert(be_value(e) == e[0] * 256 + e[1]) by {
        reveal_with_fuel(be_value, 3);
        assert(e.drop_last().last() == e[0]);
    }
    let s = spec_encode_frame(f);
    assert(s[1] % 32 == w[0] / 8 && s[2] / 32 == w[0] % 8);
    assert(s[2] % 32 == w[1] / 8 && s[3] / 32 == w[1] % 8);
    lemma_byte_split(w[0] as nat, 0, 0);
    lemma_byte_split(w[1] as nat, 0, 0);
}

/// A payload of more than 65535 bytes is announced by the code 127, and its
/// length follows in the next sixty-four bits, big-endian; the frame is ten
/// bytes longer than its payload.
pub proof fn lemma_long_length_written(f: FrameView)
    requires
        65535 < f.content.len() <= u64::MAX,
    ensures
        ({
            let s = spec_encode_frame(f);
            &&& s.len() == f.content.len() + 10
            &&& s[0] * 8 + s[1] / 32 == (if f.is_final {
                1024int
            } else {
                0int
            }) + opcode_bits(f.opcode) * 128 + 127
            &&& be_value(spec_unshift(s.subrange(1, 10))) == f.content.len()
        }),
{
    let len = f.content.len();
    let w = be_bytes(len, 8) + f.content;
    let sh = spec_shift(7, w);
    lemma_frame_bits(f);
    lemma_frame_size(f);
    lemma_be_bytes_len(len, 8);
    lemma_pow256_eight();
    lemma_be_value_of_bytes(len, 8);
    lemma_unshift_shift(7, w);
    let s = spec_encode_frame(f);
    reveal(spec_encode_frame);
    assert(s =~= seq![first_byte(f.is_final, f.opcode, 127) as u8] + sh);
    assert(s.subrange(1, 10) =~= sh.subrange(0, 9));
    lemma_unshift_subrange(sh, 0, 8);
    assert(w.subrange(0, 8) =~= be_bytes(len, 8));
}

/// A length code of at most 125 is the payload length: the header is the
/// first two bytes, and says the FIN bit, the opcode and that length; the
/// frame parses once that many payload bytes follow and its closing bits
/// are zero.
pub proof fn lemma_short_length_read(s: Seq<u8>)
    requires
        s.len() >= 2,
        (s[0] % 16) * 8 + s[1] / 32 <= 125,
    ensures
        spec_parse_header(s) == Ok::<(FrameHeaderView, nat), FrameError>(
            (
                FrameHeaderView {
                    is_final: s[0] >= 128,
                    opcode: opcode_of_bits(((s[0] / 16) % 8) as nat),
                    payload_length: ((s[0] % 16) * 8 + s[1] / 32) as nat,
                },
                2,
            ),
        ),
        ({
            let len = (s[0] % 16) * 8 + s[1] / 32;
            s.len() >= 2 + len && s[1 + len] % 32 == 0 ==> (spec_parse_frame(s) matches Ok((f, n))
                && n == 2 + len && f.content.len() == len && f.is_final == (s[0] >= 128))
        }),
{
}

/// A length code of 126 announces the length in the next sixteen bits: the
/// header takes four bytes and says that length, which must be at least 126.
pub proof fn lemma_medium_length_read(s: Seq<u8>)
    requires
        s.len() >= 4,
        (s[0] % 16) * 8 + s[1] / 32 == 126,
    ensures
        ({
            let len = ((s[1] % 32) * 8 + s[2] / 32) * 256 + (s[2] % 32) * 8 + s[3] / 32;
            &&& len >= 126 ==> (spec_parse_header(s) matches Ok((h, n)) && n == 4
                && h.payload_length == len && h.is_final == (s[0] >= 128))
            &&& len < 126 ==> spec_parse_header(s) == Err::<(FrameHeaderView, nat), FrameError>(
                FrameError::NonMinimalLength,
            )
        }),
{
    let z = s.subrange(1, 4);
    let e = spec_unshift(z);
    assert(e.len() == 2);
    assert(e[0] == ((s[1] % 32) * 8 + s[2] / 32) as u8 && e[1] == ((s[2] % 32) * 8 + s[3] / 32)
        as u8);
    lemma_byte_join(s[1] as nat, s[2] as nat);
    lemma_byte_join(s[2] as nat, s[3] as nat);
    assert(e.drop_last().drop_last() =~= Seq::<u8>::empty());
    assert(be_value(e) == e[0] * 256 + e[1]) by {
        reveal_with_fuel(be_value, 3);
        assert(e.drop_last().last() == e[0]);
    }
}

/// The first two bytes of a frame and the bytes that `extended_length_size`
/// asks for after them hold a whole header: it parses, or is refused for its
/// length encoding alone.
pub proof fn lemma_header_complete(s: Seq<u8>)
    requires
        s.len() >= 2,
        s.len() == 2 + extension_size(code_of(s[0], s[1])),
    ensures
        spec_parse_header(s) matches Ok((_, n)) ==> n == s.len(),
        spec_parse_header(s) != Err::<(FrameHeaderView, nat), FrameError>(
            FrameError::UnexpectedEnd,
        ),
{
}

/// Reading a frame in stages gives what reading it at once does: once the
/// header bytes `h` parse, appending the `payload_length` bytes `p` that
/// follow them leaves the header as it was and gives the frame whose
/// payload is read from the last header byte on, unless its closing bits are
/// not zero.
pub proof fn lemma_staged_read(h: Seq<u8>, p: Seq<u8>)
    requires
        spec_parse_header(h) matches Ok((hv, n)) && n == h.len() && p.len() == hv.payload_length,
    ensures
        spec_parse_header(h + p) == spec_parse_header(h),
        ({
            let (hv, n) = spec_parse_header(h).unwrap();
            let s = h + p;
            spec_parse_frame(s) == if s.last() % 32 == 0 {
                Ok::<(FrameView, nat), FrameError>(
                    (
                        FrameView {
                            is_final: hv.is_final,
                            opcode: hv.opcode,
                            content: spec_unshift(s.subrange(n - 1, s.len() as int)),
                        },
                        s.len(),
                    ),
                )
            } else {
                Err(FrameError::NonZeroPadding)
            }
        }),
{
    let s = h + p;
    let code = code_of(h[0], h[1]);
    let k = extension_size(code);
    assert(s[0] == h[0] && s[1] == h[1]);
    assert(s.subrange(1, (2 + k) as int) =~= h.subrange(1, (2 + k) as int));
}

/// The header of a written frame, whatever bytes follow it.
proof fn lemma_parse_encoded_header(f: FrameView, rest: Seq<u8>)
    requires
        f.content.len() <= u64::MAX,
    ensures
        spec_parse_header(spec_encode_frame(f) + rest) == Ok::<(FrameHeaderView, nat), FrameError>(
            (
                FrameHeaderView {
                    is_final: f.is_final,
                    opcode: f.opcode,
                    payload_length: f.content.len(),
                },
                2 + extension_size(length_code(f.content.len())),
            ),
        ),
{
    reveal(spec_encode_frame);
    let len = f.content.len();
    let code = length_code(len);
    let k = extension_size(code);
    let c = code % 8;
    let ext = be_bytes(len, k);
    let w = ext + f.content;
    let sh = spec_shift(c, w);
    let enc = spec_encode_frame(f);
    let s = enc + rest;
    lemma_be_bytes_len(len, k);
    lemma_pow256_eight();
    lemma_unshift_shift(c, w);
    lemma_opcode_bits(f.opcode, 0);
    let q: nat = if w.len() > 0 {
        (w[0] / 8) as nat
    } else {
        0
    };
    if w.len() > 0 {
        lemma_byte_split(w[0] as nat, c, 0);
    }
    lemma_first_bytes_build(f.is_final, opcode_bits(f.opcode), code, q);
    assert(s[0] == enc[0] && s[1] == enc[1]);
    assert(enc[0] == first_byte(f.is_final, f.opcode, code) as u8);
    assert(enc[1] == sh[0]);
    assert(s.subrange(1, (2 + k) as int) =~= sh.subrange(0, (k + 1) as int));
    lemma_unshift_subrange(sh, 0, k as int);
    assert(w.subrange(0, k as int) =~= ext);
    if k > 0 {
        lemma_be_value_of_bytes(len, k);
    }
}

/// Reading back a written frame gives the frame, whatever bytes follow it:
/// the parser takes exactly the bytes that the writer wrote.
#[verifier::rlimit(30)]
pub proof fn lemma_parse_encoded_frame(f: FrameView, rest: Seq<u8>)
    requires
        f.content.len() <= u64::MAX,
    ensures
        spec_parse_frame(spec_encode_frame(f) + rest) == Ok::<(FrameView, nat), FrameError>(
            (f, spec_encode_frame(f).len()),
        ),
{
    reveal(spec_encode_frame);
    let len = f.content.len();
    let code = length_code(len);
    let k = extension_size(code);
    let c = code % 8;
    let w = be_bytes(len, k) + f.content;
    let sh = spec_shift(c, w);
    let enc = spec_encode_frame(f);
    let s = enc + rest;
    lemma_be_bytes_len(len, k);
    lemma_unshift_shift(c, w);
    lemma_parse_encoded_header(f, rest);
    assert(enc =~= seq![first_byte(f.is_final, f.opcode, code) as u8] + sh);
    let n = 2 + k;
    let end = n + len;
    assert(s[end - 1] == sh.last());
    assert(s.subrange(n - 1, end as int) =~= sh.subrange(k as int, (k + len + 1) as int));
    lemma_unshift_subrange(sh, k as int, (k + len) as int);
    assert(w.subrange(k as int, (k + len) as int) =~= f.content);
    let g = FrameView {
        is_final: f.is_final,
        opcode: f.opcode,
        content: spec_unshift(s.subrange(n - 1, end as int)),
    };
    assert(g.content =~= f.content);
    assert(spec_parse_frame(s) == Ok::<(FrameView, nat), FrameError>((g, end)));
}

/// What a parsed header says of the bytes it was parsed from: the first
/// byte is built from the FIN flag, the opcode and the length code, whose
/// low three bits open the second byte, and the extended length is the
/// payload length written in the fewest bytes.
proof fn lemma_parsed_header_bytes(s: Seq<u8>)
    requires
        spec_parse_header(s) is Ok,
    ensures
        ({
            let (h, n) = spec_parse_header(s).unwrap();
            let code = code_of(s[0], s[1]);
            let k = extension_size(code);
            &&& n == 2 + k
            &&& code == length_code(h.payload_length)
            &&& first_byte(h.is_final, h.opcode, code) == s[0]
            &&& code % 8 == s[1] / 32
            &&& be_bytes(h.payload_length, k) == spec_unshift(s.subrange(1, (2 + k) as int))
        }),
{
    let (h, n) = spec_parse_header(s).unwrap();
    let code = code_of(s[0], s[1]);
    let k = extension_size(code);
    let ext = spec_unshift(s.subrange(1, (2 + k) as int));
    if k == 0 {
        assert(be_bytes(h.payload_length, k) =~= ext);
    } else {
        lemma_bytes_of_be_value(ext);
    }
    let ob = ((s[0] / 16) % 8) as nat;
    lemma_opcode_bits(h.opcode, ob);
    lemma_first_bytes_parts(s[0] as nat, s[1] as nat);
}

/// Writing back a parsed frame gives the bytes it was parsed from: every
/// frame has one way to be written.
#[verifier::rlimit(30)]
pub proof fn lemma_encode_parsed_frame(s: Seq<u8>)
    ensures
        spec_parse_frame(s) matches Ok((f, n)) ==> spec_encode_frame(f) == s.subrange(0, n as int),
{
    reveal(spec_encode_frame);
    if let Ok((f, end)) = spec_parse_frame(s) {
        lemma_parsed_header_bytes(s);
        let (h, n) = spec_parse_header(s).unwrap();
        let code = code_of(s[0], s[1]);
        let k = extension_size(code);
        let len = f.content.len();
        let z = s.subrange(1, end as int);
        let ext = be_bytes(len, k);
        assert(z.subrange(0, (k + 1) as int) =~= s.subrange(1, (2 + k) as int));
        assert(z.subrange(k as int, (k + len + 1) as int) =~= s.subrange(
            (1 + k) as int,
            end as int,
        ));
        lemma_rebuild_shifted(z, ext, f.content);
        assert(spec_encode_frame(f) == seq![s[0]] + spec_shift(
            (z[0] / 32) as nat,
            ext + f.content,
        ));
        assert(seq![s[0]] + z =~= s.subrange(0, end as int));
    }
}

/// Bytes `z` that end in five zero bits and from which `ext`, then
/// `content`, are read, are the shifted `ext` and `content`.
proof fn lemma_rebuild_shifted(z: Seq<u8>, ext: Seq<u8>, content: Seq<u8>)
    requires
        z.len() == ext.len() + content.len() + 1,
        z.last() % 32 == 0,
        spec_unshift(z.subrange(0, (ext.len() + 1) as int)) == ext,
        spec_unshift(z.subrange(ext.len() as int, z.len() as int)) == content,
    ensures
        spec_shift((z[0] / 32) as nat, ext + content) == z,
{
    let k = ext.len() as int;
    let u = spec_unshift(z);
    lemma_unshift_subrange(z, 0, k);
    lemma_unshift_subrange(z, k, z.len() - 1);
    assert(u =~= u.subrange(0, k) + u.subrange(k, z.len() - 1));
    lemma_shift_unshift(z);
}

} // verus!
