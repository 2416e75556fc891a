//! Messages. A message is written as a run of frames whose payloads hold at
//! most a chunk size of bytes each: the first frame is a binary frame, the
//! others continuation frames, and the last one is final. It is read back by
//! joining payloads up to a final frame, refusing messages longer than a size
//! limit, continuation frames with no message to continue, new messages that
//! start before the current one is complete, and reserved opcodes; a
//! discard-message frame drops the message being received.

use vstd::prelude::*;

use super::frame::{
    copy_range, encode_frame, lemma_parse_encoded_frame, parse_frame_at, spec_encode_frame,
    spec_parse_frame, Frame, FrameError, FrameView, Opcode,
};
use wtransport::error::StreamReadExactError;

verus! {

/// The largest message, in bytes, that a reader accepts unless told
/// otherwise.
pub const MAX_MESSAGE_SIZE_BYTES: usize = 65535;

/// The largest payload, in bytes, that a writer puts in one frame unless
/// told otherwise.
pub const MAX_CHUNK_SIZE_BYTES: usize = 1024;

/// Why a message could not be read.
#[derive(Debug)]
pub enum MessageReadError {
    /// The stream failed or ended early.
    TransportError(StreamReadExactError),
    /// The message grew past the size limit.
    MessageSizeExceeded,
    /// The bytes do not form a frame.
    InvalidFrame(FrameError),
    /// A continuation frame came with no message to continue.
    UnexpectedContinuation,
    /// A text or binary frame began a message before the current one was
    /// complete.
    UnfinishedMessage,
    /// A frame has a reserved opcode.
    ReservedOpcode,
}

impl MessageReadError {
    /// A sentence that describes the error, or `None` for a transport error,
    /// which is described by the stream's own error.
    pub fn message(&self) -> (r: Option<&'static str>)
        ensures
            self is TransportError <==> r is None,
            self is MessageSizeExceeded ==> (r matches Some(t) && t@
                == "message size exceeded max message size limit"@),
            self is InvalidFrame ==> (r matches Some(t) && t@ == "invalid frame"@),
            self is UnexpectedContinuation ==> (r matches Some(t) && t@
                == "continuation frame without a message to continue"@),
            self is UnfinishedMessage ==> (r matches Some(t) && t@
                == "new message before the current one is complete"@),
            self is ReservedOpcode ==> (r matches Some(t) && t@ == "reserved opcode"@),
    {
        match self {
            MessageReadError::TransportError(_) => None,
            MessageReadError::MessageSizeExceeded => Some(
                "message size exceeded max message size limit",
            ),
            MessageReadError::InvalidFrame(_) => Some("invalid frame"),
            MessageReadError::UnexpectedContinuation => Some(
                "continuation frame without a message to continue",
            ),
            MessageReadError::UnfinishedMessage => Some(
                "new message before the current one is complete",
            ),
            MessageReadError::ReservedOpcode => Some("reserved opcode"),
        }
    }
}

/// The frames in which the bytes `buf` are written, payloads of `chunk`
/// bytes in order, the first with opcode `opcode` and the others
/// continuation frames, the last one shorter or equal and final.
pub open spec fn spec_chunk_frames(buf: Seq<u8>, chunk: nat, opcode: Opcode) -> Seq<FrameView>
    decreases buf.len(),
{
    if chunk == 0 || buf.len() <= chunk {
        seq![FrameView { is_final: true, opcode, content: buf }]
    } else {
        seq![FrameView { is_final: false, opcode, content: buf.take(chunk as int) }]
            + spec_chunk_frames(buf.skip(chunk as int), chunk, Opcode::Continuation)
    }
}

/// The frames in which a binary message is written.
pub open spec fn spec_message_frames(buf: Seq<u8>, chunk: nat) -> Seq<FrameView> {
    spec_chunk_frames(buf, chunk, Opcode::Binary)
}

/// The bytes of a run of frames, one after the other.
pub open spec fn spec_encode_frames(fs: Seq<FrameView>) -> Seq<u8>
    decreases fs.len(),
{
    if fs.len() == 0 {
        Seq::empty()
    } else {
        spec_encode_frame(fs[0]) + spec_encode_frames(fs.drop_first())
    }
}

/// The bytes in which a message is written.
pub open spec fn spec_encode_message(buf: Seq<u8>, chunk: nat) -> Seq<u8> {
    spec_encode_frames(spec_message_frames(buf, chunk))
}

/// What taking in one frame does: the message is refused, or complete, or
/// still being received (`Some` of what was received), or not begun (`None`).
pub enum AssemblyStep {
    Refused(MessageReadError),
    Complete(Seq<u8>),
    Pending(Option<Seq<u8>>),
}

/// Taking in frame `f` when `state` is the message being received, if any,
/// with messages limited to `max` bytes.
pub open spec fn spec_assemble(state: Option<Seq<u8>>, f: FrameView, max: nat) -> AssemblyStep {
    match f.opcode {
        Opcode::DiscardMessage => AssemblyStep::Pending(None),
        Opcode::Text | Opcode::Binary | Opcode::Continuation => {
            let starts = f.opcode != Opcode::Continuation;
            if starts && state is Some {
                AssemblyStep::Refused(MessageReadError::UnfinishedMessage)
            } else if !starts && state is None {
                AssemblyStep::Refused(MessageReadError::UnexpectedContinuation)
            } else {
                let received = if starts {
                    Seq::empty()
                } else {
                    state->0
                };
                if received.len() + f.content.len() > max {
                    AssemblyStep::Refused(MessageReadError::MessageSizeExceeded)
                } else if f.is_final {
                    AssemblyStep::Complete(received + f.content)
                } else {
                    AssemblyStep::Pending(Some(received + f.content))
                }
            }
        },
        _ => AssemblyStep::Refused(MessageReadError::ReservedOpcode),
    }
}

/// Reads frames from `s` when `state` is the message being received, if
/// any: the message and the number of bytes of `s` taken, or why it fails.
pub open spec fn spec_decode_message_from(s: Seq<u8>, state: Option<Seq<u8>>, max: nat) -> Result<
    (Seq<u8>, nat),
    MessageReadError,
>
    decreases s.len(),
{
    match spec_parse_frame(s) {
        Err(e) => Err(MessageReadError::InvalidFrame(e)),
        Ok((f, n)) => match spec_assemble(state, f, max) {
            AssemblyStep::Refused(e) => Err(e),
            AssemblyStep::Complete(m) => Ok((m, n)),
            AssemblyStep::Pending(next) => match spec_decode_message_from(
                s.skip(n as int),
                next,
                max,
            ) {
                Ok((m, k)) => Ok((m, n + k)),
                Err(e) => Err(e),
            },
        },
    }
}

/// The message at the start of `s`, with the number of bytes it takes, or
/// why there is none, with messages limited to `max` bytes.
pub open spec fn spec_decode_message(s: Seq<u8>, max: nat) -> Result<
    (Seq<u8>, nat),
    MessageReadError,
> {
    spec_decode_message_from(s, None, max)
}

/// A message read result as plain values.
pub open spec fn message_result_view(r: Result<(Vec<u8>, usize), MessageReadError>) -> Result<
    (Seq<u8>, nat),
    MessageReadError,
> {
    match r {
        Ok((m, n)) => Ok((m@, n as nat)),
        Err(e) => Err(e),
    }
}

/// The frames of a vector, as plain values.
pub open spec fn frame_views(fs: Seq<Frame>) -> Seq<FrameView> {
    fs.map_values(|f: Frame| f@)
}

/// The frames in which the binary message `buf` is written, with at most
/// `chunk_size` payload bytes per frame. An empty message is one final
/// empty frame.
pub fn message_frames(buf: &[u8], chunk_size: usize) -> (r: Vec<Frame>)
    requires
        chunk_size > 0,
    ensures
        frame_views(r@) == spec_message_frames(buf@, chunk_size as nat),
{
    let len = buf.len();
    let mut r: Vec<Frame> = Vec::new();
    let mut pos: usize = 0;
    let mut opcode = Opcode::Binary;
    assert(buf@.skip(0) =~= buf@);
    assert(frame_views(r@) =~= Seq::<FrameView>::empty());
    loop
        invariant
            pos <= len,
            len == buf@.len(),
            chunk_size > 0,
            pos < len || pos == 0,
            spec_message_frames(buf@, chunk_size as nat) == frame_views(r@) + spec_chunk_frames(
                buf@.skip(pos as int),
                chunk_size as nat,
                opcode,
            ),
        decreases len - pos,
    {
        let ghost rest = buf@.skip(pos as int);
        if len - pos <= chunk_size {
            let chunk = copy_range(buf, pos, len);
            assert(chunk@ =~= rest);
            r.push(Frame::new(true, opcode, chunk));
            assert(frame_views(r@) =~= spec_message_frames(buf@, chunk_size as nat));
            return r;
        }
        let chunk = copy_range(buf, pos, pos + chunk_size);
        assert(chunk@ =~= rest.take(chunk_size as int));
        let ghost before = frame_views(r@);
        let ghost first = opcode;
        r.push(Frame::new(false, opcode, chunk));
        pos = pos + chunk_size;
        opcode = Opcode::Continuation;
        assert(rest.skip(chunk_size as int) =~= buf@.skip(pos as int));
        assert(frame_views(r@) =~= before.push(
            FrameView { is_final: false, opcode: first, content: rest.take(chunk_size as int) },
        ));
        assert(spec_message_frames(buf@, chunk_size as nat) =~= frame_views(r@)
            + spec_chunk_frames(buf@.skip(pos as int), chunk_size as nat, opcode));
    }
}

/// Writing one more frame appends its bytes.
pub proof fn lemma_encode_frames_push(fs: Seq<FrameView>, f: FrameView)
    ensures
        spec_encode_frames(fs.push(f)) == spec_encode_frames(fs) + spec_encode_frame(f),
    decreases fs.len(),
{
    if fs.len() == 0 {
        assert(fs.push(f).drop_first() =~= Seq::<FrameView>::empty());
        assert(fs.push(f)[0] == f);
        assert(spec_encode_frames(Seq::<FrameView>::empty()) =~= Seq::<u8>::empty());
        assert(spec_encode_frames(fs.push(f)) =~= spec_encode_frame(f));
    } else {
        lemma_encode_frames_push(fs.drop_first(), f);
        assert(fs.push(f).drop_first() =~= fs.drop_first().push(f));
        assert(spec_encode_frames(fs.push(f)) =~= spec_encode_frames(fs) + spec_encode_frame(f));
    }
}

/// The bytes in which the binary message `buf` is written, with at most
/// `chunk_size` payload bytes per frame: its frames, one after the other.
pub fn encode_message(buf: &[u8], chunk_size: usize) -> (r: Vec<u8>)
    requires
        chunk_size > 0,
    ensures
        r@ == spec_encode_message(buf@, chunk_size as nat),
{
    let frames = message_frames(buf, chunk_size);
    let ghost views = frame_views(frames@);
    let mut out: Vec<u8> = Vec::new();
    let mut i: usize = 0;
    assert(views.take(0) =~= Seq::<FrameView>::empty());
    while i < frames.len()
        invariant
            i <= frames@.len(),
            views == frame_views(frames@),
            out@ == spec_encode_frames(views.take(i as int)),
        decreases frames@.len() - i,
    {
        let mut bytes = encode_frame(&frames[i]);
        proof {
            lemma_encode_frames_push(views.take(i as int), views[i as int]);
            assert(views.take(i as int).push(views[i as int]) =~= views.take(i + 1));
        }
        out.append(&mut bytes);
        i = i + 1;
    }
    assert(views.take(frames@.len() as int) =~= views);
    out
}

/// Collects the payloads of the frames of one message as they arrive.
pub struct MessageAssembler {
    in_progress: bool,
    received: Vec<u8>,
    max_size: usize,
}

impl View for MessageAssembler {
    type V = Option<Seq<u8>>;

    /// The message being received, if one has begun.
    closed spec fn view(&self) -> Option<Seq<u8>> {
        if self.in_progress {
            Some(self.received@)
        } else {
            None
        }
    }
}

impl MessageAssembler {
    /// The largest message, in bytes, that the assembler accepts.
    pub closed spec fn limit(&self) -> nat {
        self.max_size as nat
    }

    /// An assembler that has received nothing and accepts messages of at
    /// most `max_size` bytes.
    pub fn new(max_size: usize) -> (r: MessageAssembler)
        ensures
            r@ == None::<Seq<u8>>,
            r.limit() == max_size,
    {
        MessageAssembler { in_progress: false, received: Vec::new(), max_size }
    }

    /// Takes in the next frame, as `spec_assemble` says: a refused frame is
    /// answered with its error and leaves the assembler as it was; a frame
    /// that completes the message hands it out and leaves nothing begun; any
    /// other frame updates the message being received.
    pub fn push_frame(&mut self, frame: Frame) -> (r: Result<Option<Vec<u8>>, MessageReadError>)
        ensures
            final(self).limit() == old(self).limit(),
            match spec_assemble(old(self)@, frame@, old(self).limit()) {
                AssemblyStep::Refused(e) => r == Err::<Option<Vec<u8>>, MessageReadError>(e)
                    && final(self)@ == old(self)@,
                AssemblyStep::Complete(m) => r matches Ok(Some(v)) && v@ == m && final(self)@
                    == None::<Seq<u8>>,
                AssemblyStep::Pending(next) => r matches Ok(None) && final(self)@ == next,
            },
    {
        let is_final = frame.header().is_final();
        let opcode = frame.header().opcode();
        let starts = match opcode {
            Opcode::DiscardMessage => {
                self.in_progress = false;
                self.received = Vec::new();
                return Ok(None);
            },
            Opcode::Text => true,
            Opcode::Binary => true,
            Opcode::Continuation => false,
            _ => {
                return Err(MessageReadError::ReservedOpcode);
            },
        };
        if starts && self.in_progress {
            return Err(MessageReadError::UnfinishedMessage);
        }
        if !starts && !self.in_progress {
            return Err(MessageReadError::UnexpectedContinuation);
        }
        let mut content = frame.get_content();
        let received_len = if starts {
            0
        } else {
            self.received.len()
        };
        if content.len() > self.max_size || received_len > self.max_size - content.len() {
            return Err(MessageReadError::MessageSizeExceeded);
        }
        if starts {
            self.received = Vec::new();
        }
        self.received.append(&mut content);
        if is_final {
            let mut message: Vec<u8> = Vec::new();
            std::mem::swap(&mut message, &mut self.received);
            self.in_progress = false;
            Ok(Some(message))
        } else {
            self.in_progress = true;
            Ok(None)
        }
    }
}

/// A decode result shifted by `pos` bytes.
pub open spec fn shift_result(r: Result<(Seq<u8>, nat), MessageReadError>, pos: nat) -> Result<
    (Seq<u8>, nat),
    MessageReadError,
> {
    match r {
        Ok((m, k)) => Ok((m, k + pos)),
        Err(e) => Err(e),
    }
}

/// Reads the message at the start of `bytes`, with messages limited to
/// `max_size` bytes: the message and the number of bytes its frames take, or
/// why there is none.
pub fn decode_message(bytes: &[u8], max_size: usize) -> (r: Result<
    (Vec<u8>, usize),
    MessageReadError,
>)
    ensures
        message_result_view(r) == spec_decode_message(bytes@, max_size as nat),
{
    let len = bytes.len();
    let mut assembler = MessageAssembler::new(max_size);
    let mut pos: usize = 0;
    assert(bytes@.skip(0) =~= bytes@);
    loop
        invariant
            pos <= bytes@.len(),
            len == bytes@.len(),
            assembler.limit() == max_size,
            spec_decode_message(bytes@, max_size as nat) == shift_result(
                spec_decode_message_from(bytes@.skip(pos as int), assembler@, max_size as nat),
                pos as nat,
            ),
        decreases bytes@.len() - pos,
    {
        let ghost s = bytes@.skip(pos as int);
        match parse_frame_at(bytes, pos) {
            Err(e) => {
                return Err(MessageReadError::InvalidFrame(e));
            },
            Ok((frame, n)) => {
                match assembler.push_frame(frame) {
                    Err(e) => {
                        return Err(e);
                    },
                    Ok(Some(message)) => {
                        return Ok((message, pos + n));
                    },
                    Ok(None) => {
                        assert(s.skip(n as int) =~= bytes@.skip(pos + n));
                        pos = pos + n;
                    },
                }
            },
        }
    }
}

/// Taking in a frame never yields a message, finished or not, longer than
/// the limit, whatever the frame's opcode, as long as the message being
/// received is within it.
pub proof fn lemma_assemble_within_limit(state: Option<Seq<u8>>, f: FrameView, max: nat)
    requires
        state matches Some(m) ==> m.len() <= max,
    ensures
        spec_assemble(state, f, max) matches AssemblyStep::Complete(m) ==> m.len() <= max,
        spec_assemble(state, f, max) matches AssemblyStep::Pending(Some(m)) ==> m.len() <= max,
{
}

/// A text or binary frame begins a message when none is being received and
/// its payload is within the limit, whatever its length, the empty payload
/// included: the message is the payload, finished if the frame is final.
pub proof fn lemma_assemble_begins(f: FrameView, max: nat)
    requires
        f.opcode == Opcode::Text || f.opcode == Opcode::Binary,
        f.content.len() <= max,
    ensures
        f.is_final ==> spec_assemble(None, f, max) == AssemblyStep::Complete(f.content),
        !f.is_final ==> spec_assemble(None, f, max) == AssemblyStep::Pending(Some(f.content)),
{
}

/// A continuation frame adds its payload to the message being received,
/// finishing it if the frame is final, as long as the whole is within the
/// limit.
pub proof fn lemma_assemble_continues(m: Seq<u8>, f: FrameView, max: nat)
    requires
        f.opcode == Opcode::Continuation,
        m.len() + f.content.len() <= max,
    ensures
        f.is_final ==> spec_assemble(Some(m), f, max) == AssemblyStep::Complete(m + f.content),
        !f.is_final ==> spec_assemble(Some(m), f, max) == AssemblyStep::Pending(
            Some(m + f.content),
        ),
{
}

/// A frame that would take the message past the limit is refused with
/// `MessageSizeExceeded`: a text or binary frame whose payload exceeds it,
/// or a continuation frame that takes the message being received past it.
pub proof fn lemma_assemble_refuses_oversize(state: Option<Seq<u8>>, f: FrameView, max: nat)
    ensures
        (f.opcode == Opcode::Text || f.opcode == Opcode::Binary) && state is None
            && f.content.len() > max ==> spec_assemble(state, f, max) == AssemblyStep::Refused(
            MessageReadError::MessageSizeExceeded,
        ),
        f.opcode == Opcode::Continuation && state is Some && state->0.len() + f.content.len()
            > max ==> spec_assemble(state, f, max) == AssemblyStep::Refused(
            MessageReadError::MessageSizeExceeded,
        ),
{
}

/// Every message read from bytes is within the limit, and takes no more
/// than the bytes there are.
proof fn lemma_decode_from_within_limit(s: Seq<u8>, state: Option<Seq<u8>>, max: nat)
    requires
        state matches Some(m) ==> m.len() <= max,
    ensures
        spec_decode_message_from(s, state, max) matches Ok((m, n)) ==> m.len() <= max && 0 < n
            <= s.len(),
    decreases s.len(),
{
    if let Ok((f, n)) = spec_parse_frame(s) {
        lemma_assemble_within_limit(state, f, max);
        if let AssemblyStep::Pending(next) = spec_assemble(state, f, max) {
            lemma_decode_from_within_limit(s.skip(n as int), next, max);
        }
    }
}

/// Every message read from bytes is within the limit, and takes no more
/// than the bytes there are, whatever the bytes.
pub proof fn lemma_decoded_message_within_limit(s: Seq<u8>, max: nat)
    ensures
        spec_decode_message(s, max) matches Ok((m, n)) ==> m.len() <= max && 0 < n <= s.len(),
{
    lemma_decode_from_within_limit(s, None, max);
}

/// A message written as a non-final text or binary frame holding `p`, then a
/// final continuation frame holding `q`, is read back as `p` followed by
/// `q`, whatever the lengths of `p` and `q` (either may be empty), as long as
/// the whole is within the limit.
pub proof fn lemma_two_frame_message(
    opcode: Opcode,
    p: Seq<u8>,
    q: Seq<u8>,
    rest: Seq<u8>,
    max: nat,
)
    requires
        opcode == Opcode::Text || opcode == Opcode::Binary,
        p.len() + q.len() <= max,
        p.len() <= u64::MAX,
        q.len() <= u64::MAX,
    ensures
        ({
            let first = spec_encode_frame(FrameView { is_final: false, opcode, content: p });
            let second = spec_encode_frame(
                FrameView { is_final: true, opcode: Opcode::Continuation, content: q },
            );
            spec_decode_message(first + second + rest, max) == Ok::<
                (Seq<u8>, nat),
                MessageReadError,
            >((p + q, first.len() + second.len()))
        }),
{
    let f1 = FrameView { is_final: false, opcode, content: p };
    let f2 = FrameView { is_final: true, opcode: Opcode::Continuation, content: q };
    let first = spec_encode_frame(f1);
    let second = spec_encode_frame(f2);
    let s = first + second + rest;
    assert(s =~= first + (second + rest));
    lemma_parse_encoded_frame(f1, second + rest);
    lemma_assemble_begins(f1, max);
    assert(s.skip(first.len() as int) =~= second + rest);
    lemma_parse_encoded_frame(f2, rest);
    lemma_assemble_continues(p, f2, max);
    assert(spec_decode_message_from(second + rest, Some(p), max) == Ok::<
        (Seq<u8>, nat),
        MessageReadError,
    >((p + q, second.len())));
    assert(spec_decode_message_from(s, None, max) == Ok::<(Seq<u8>, nat), MessageReadError>(
        (p + q, first.len() + second.len()),
    ));
}

/// The payloads of a run of frames, joined.
pub open spec fn joined_payloads(fs: Seq<FrameView>) -> Seq<u8> {
    fs.map_values(|f: FrameView| f.content).flatten()
}

/// The frames of `spec_chunk_frames`: the first has opcode `opcode`, the
/// others are continuation frames; all but the last are not final and hold
/// exactly `chunk` bytes; the last is final and holds at most `chunk` bytes,
/// and none only when `buf` is empty; the payloads, joined, are `buf`.
pub proof fn lemma_chunk_frames_shape(buf: Seq<u8>, chunk: nat, opcode: Opcode)
    requires
        chunk > 0,
    ensures
        ({
            let fs = spec_chunk_frames(buf, chunk, opcode);
            &&& fs.len() > 0
            &&& fs[0].opcode == opcode
            &&& forall|i: int| 0 < i < fs.len() ==> (#[trigger] fs[i]).opcode == Opcode::Continuation
            &&& forall|i: int|
                0 <= i < fs.len() - 1 ==> !(#[trigger] fs[i]).is_final && fs[i].content.len()
                    == chunk
            &&& fs.last().is_final
            &&& fs.last().content.len() <= chunk
            &&& (buf.len() > 0 ==> fs.last().content.len() > 0)
            &&& joined_payloads(fs) == buf
        }),
    decreases buf.len(),
{
    let fs = spec_chunk_frames(buf, chunk, opcode);
    if buf.len() <= chunk {
        let cs = fs.map_values(|f: FrameView| f.content);
        assert(cs.drop_first() =~= Seq::<Seq<u8>>::empty());
        assert(cs.first() == buf);
        assert(Seq::<Seq<u8>>::empty().flatten() =~= Seq::<u8>::empty());
        assert(joined_payloads(fs) =~= buf);
    } else {
        let head = FrameView { is_final: false, opcode, content: buf.take(chunk as int) };
        let tail = buf.skip(chunk as int);
        lemma_chunk_frames_shape(tail, chunk, Opcode::Continuation);
        let ts = spec_chunk_frames(tail, chunk, Opcode::Continuation);
        assert(fs =~= seq![head] + ts);
        assert forall|i: int| 0 < i < fs.len() implies (#[trigger] fs[i]).opcode
            == Opcode::Continuation by {
            assert(fs[i] == ts[i - 1]);
        }
        assert forall|i: int| 0 <= i < fs.len() - 1 implies !(#[trigger] fs[i]).is_final
            && fs[i].content.len() == chunk by {
            if i > 0 {
                assert(fs[i] == ts[i - 1]);
            }
        }
        assert(fs.last() == ts.last());
        let cs = fs.map_values(|f: FrameView| f.content);
        assert(cs.drop_first() =~= ts.map_values(|f: FrameView| f.content));
        assert(joined_payloads(fs) =~= head.content + joined_payloads(ts));
        assert(head.content + tail =~= buf);
    }
}

/// A message is written as a binary frame followed by continuation frames,
/// of `chunk` bytes each but for the last, which is final; an empty message
/// is one final empty binary frame.
pub proof fn lemma_message_frames_shape(buf: Seq<u8>, chunk: nat)
    requires
        chunk > 0,
    ensures
        ({
            let fs = spec_message_frames(buf, chunk);
            &&& fs.len() > 0
            &&& fs[0].opcode == Opcode::Binary
            &&& forall|i: int| 0 < i < fs.len() ==> (#[trigger] fs[i]).opcode == Opcode::Continuation
            &&& forall|i: int|
                0 <= i < fs.len() - 1 ==> !(#[trigger] fs[i]).is_final && fs[i].content.len()
                    == chunk
            &&& fs.last().is_final
            &&& fs.last().content.len() <= chunk
            &&& (buf.len() > 0 ==> fs.last().content.len() > 0)
            &&& joined_payloads(fs) == buf
        }),
{
    lemma_chunk_frames_shape(buf, chunk, Opcode::Binary);
}

/// The state of a reader that has received `received`: nothing begun when
/// `first`, else a message in progress.
pub open spec fn reader_state(first: bool, received: Seq<u8>) -> Option<Seq<u8>> {
    if first {
        None
    } else {
        Some(received)
    }
}

/// The opcode of the next frame of a message: binary to begin it, else
/// continuation.
pub open spec fn next_opcode(first: bool) -> Opcode {
    if first {
        Opcode::Binary
    } else {
        Opcode::Continuation
    }
}

/// Reading the frames of `buf` after `received` gives `received` followed by
/// `buf`, as long as the whole stays within `max`.
proof fn lemma_decode_chunk_frames(
    buf: Seq<u8>,
    rest: Seq<u8>,
    chunk: nat,
    max: nat,
    first: bool,
    received: Seq<u8>,
)
    requires
        chunk > 0,
        buf.len() <= usize::MAX,
        first ==> received.len() == 0,
        received.len() + buf.len() <= max,
    ensures
        spec_decode_message_from(
            spec_encode_frames(spec_chunk_frames(buf, chunk, next_opcode(first))) + rest,
            reader_state(first, received),
            max,
        ) == Ok::<(Seq<u8>, nat), MessageReadError>(
            (
                received + buf,
                spec_encode_frames(spec_chunk_frames(buf, chunk, next_opcode(first))).len(),
            ),
        ),
    decreases buf.len(),
{
    let op = next_opcode(first);
    let fs = spec_chunk_frames(buf, chunk, op);
    if first {
        assert(received =~= Seq::<u8>::empty());
    }
    if buf.len() <= chunk {
        let f = FrameView { is_final: true, opcode: op, content: buf };
        assert(fs.drop_first() =~= Seq::<FrameView>::empty());
        assert(fs[0] == f);
        assert(spec_encode_frames(Seq::<FrameView>::empty()) =~= Seq::<u8>::empty());
        assert(spec_encode_frames(fs) =~= spec_encode_frame(f));
        lemma_parse_encoded_frame(f, rest);
        if first {
            assert(Seq::<u8>::empty() + buf =~= received + buf);
        }
        assert(spec_assemble(reader_state(first, received), f, max) == AssemblyStep::Complete(
            received + buf,
        ));
    } else {
        let f = FrameView { is_final: false, opcode: op, content: buf.take(chunk as int) };
        let tail = buf.skip(chunk as int);
        let ts = spec_chunk_frames(tail, chunk, Opcode::Continuation);
        let ef = spec_encode_frame(f);
        let et = spec_encode_frames(ts);
        assert(fs.drop_first() =~= ts);
        assert(spec_encode_frames(fs) =~= ef + et);
        let s = spec_encode_frames(fs) + rest;
        assert(s =~= ef + (et + rest));
        lemma_parse_encoded_frame(f, et + rest);
        assert(s.skip(ef.len() as int) =~= et + rest);
        let next = received + f.content;
        if first {
            assert(Seq::<u8>::empty() + f.content =~= next);
        }
        assert(spec_assemble(reader_state(first, received), f, max) == AssemblyStep::Pending(
            Some(next),
        ));
        lemma_decode_chunk_frames(tail, rest, chunk, max, false, next);
        assert(next + tail =~= received + buf);
    }
}

/// Reading back a written message gives the message, whatever bytes follow
/// it, for every message of at most `max` bytes, the empty one included.
pub proof fn lemma_message_roundtrip(buf: Seq<u8>, rest: Seq<u8>, chunk: nat, max: nat)
    requires
        chunk > 0,
        buf.len() <= max,
        buf.len() <= usize::MAX,
    ensures
        spec_decode_message(spec_encode_message(buf, chunk) + rest, max) == Ok::<
            (Seq<u8>, nat),
            MessageReadError,
        >((buf, spec_encode_message(buf, chunk).len())),
{
    lemma_decode_chunk_frames(buf, rest, chunk, max, true, Seq::empty());
    assert(Seq::<u8>::empty() + buf =~= buf);
}

/// Reading the frames of `buf` after `received` is refused when the whole
/// exceeds `max`.
proof fn lemma_oversized_chunk_frames_refused(
    buf: Seq<u8>,
    rest: Seq<u8>,
    chunk: nat,
    max: nat,
    first: bool,
    received: Seq<u8>,
)
    requires
        chunk > 0,
        buf.len() <= usize::MAX,
        first ==> received.len() == 0,
        received.len() + buf.len() > max,
    ensures
        spec_decode_message_from(
            spec_encode_frames(spec_chunk_frames(buf, chunk, next_opcode(first))) + rest,
            reader_state(first, received),
            max,
        ) matches Err(MessageReadError::MessageSizeExceeded),
    decreases buf.len(),
{
    let op = next_opcode(first);
    let fs = spec_chunk_frames(buf, chunk, op);
    if buf.len() <= chunk {
        let f = FrameView { is_final: true, opcode: op, content: buf };
        assert(fs.drop_first() =~= Seq::<FrameView>::empty());
        assert(fs[0] == f);
        assert(spec_encode_frames(Seq::<FrameView>::empty()) =~= Seq::<u8>::empty());
        assert(spec_encode_frames(fs) =~= spec_encode_frame(f));
        lemma_parse_encoded_frame(f, rest);
    } else {
        let f = FrameView { is_final: false, opcode: op, content: buf.take(chunk as int) };
        let tail = buf.skip(chunk as int);
        let ts = spec_chunk_frames(tail, chunk, Opcode::Continuation);
        let ef = spec_encode_frame(f);
        let et = spec_encode_frames(ts);
        assert(fs.drop_first() =~= ts);
        assert(spec_encode_frames(fs) =~= ef + et);
        let s = spec_encode_frames(fs) + rest;
        assert(s =~= ef + (et + rest));
        lemma_parse_encoded_frame(f, et + rest);
        assert(s.skip(ef.len() as int) =~= et + rest);
        if received.len() + f.content.len() <= max {
            let base = if first {
                Seq::<u8>::empty()
            } else {
                received
            };
            assert(base =~= received);
            lemma_oversized_chunk_frames_refused(
                tail,
                rest,
                chunk,
                max,
                false,
                received + f.content,
            );
        }
    }
}

/// A written message longer than `max` is refused when read back.
pub proof fn lemma_oversized_message_refused(buf: Seq<u8>, rest: Seq<u8>, chunk: nat, max: nat)
    requires
        chunk > 0,
        buf.len() > max,
        buf.len() <= usize::MAX,
    ensures
        spec_decode_message(spec_encode_message(buf, chunk) + rest, max) matches Err(
            MessageReadError::MessageSizeExceeded,
        ),
{
    lemma_oversized_chunk_frames_refused(buf, rest, chunk, max, true, Seq::empty());
}

/// A discard-message frame drops whatever message was being received: the
/// reader goes on after it as if nothing had begun.
pub proof fn lemma_discard_drops_message(
    state: Option<Seq<u8>>,
    is_final: bool,
    content: Seq<u8>,
    rest: Seq<u8>,
    max: nat,
)
    requires
        content.len() <= u64::MAX,
    ensures
        ({
            let d = spec_encode_frame(
                FrameView { is_final, opcode: Opcode::DiscardMessage, content },
            );
            spec_decode_message_from(d + rest, state, max) == shift_result(
                spec_decode_message_from(rest, None, max),
                d.len(),
            )
        }),
{
    let f = FrameView { is_final, opcode: Opcode::DiscardMessage, content };
    let d = spec_encode_frame(f);
    lemma_parse_encoded_frame(f, rest);
    assert((d + rest).skip(d.len() as int) =~= rest);
    match spec_decode_message_from(rest, None, max) {
        Ok((m, k)) => {
            assert(d.len() + k == k + d.len());
        },
        Err(_) => {},
    }
}

/// A frame that does not fit the message being received is refused: a
/// continuation with no message begun, a text or binary frame while a
/// message is unfinished, and any reserved opcode.
pub proof fn lemma_out_of_place_frames_refused(
    state: Option<Seq<u8>>,
    f: FrameView,
    rest: Seq<u8>,
    max: nat,
)
    requires
        f.content.len() <= u64::MAX,
    ensures
        f.opcode == Opcode::Continuation && state is None ==> spec_decode_message_from(
            spec_encode_frame(f) + rest,
            state,
            max,
        ) matches Err(MessageReadError::UnexpectedContinuation),
        (f.opcode == Opcode::Text || f.opcode == Opcode::Binary) && state is Some
            ==> spec_decode_message_from(spec_encode_frame(f) + rest, state, max) matches Err(
            MessageReadError::UnfinishedMessage,
        ),
        (f.opcode == Opcode::Reserved3 || f.opcode == Opcode::Reserved4 || f.opcode
            == Opcode::Reserved6 || f.opcode == Opcode::Reserved7) ==> spec_decode_message_from(
            spec_encode_frame(f) + rest,
            state,
            max,
        ) matches Err(MessageReadError::ReservedOpcode),
{
    lemma_parse_encoded_frame(f, rest);
}

} // verus!
