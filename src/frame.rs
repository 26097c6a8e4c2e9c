//! Length-delimited framing: each message travels as a 4-byte big-endian
//! length followed by that many bytes of body.
use vstd::prelude::*;
use crate::bytes::{be32_bytes, be32_value, lemma_be32_round_trip, push_be32, read_be32};
use crate::types::{Message, MessageModel};
use crate::wire::{
    dec_message, decode_message, enc_message, encode_message, holds_at,
    lemma_holds_split, lemma_message_round_trip, message_fits, MessageDecodeError,
};

verus! {

/// The largest body a frame may announce (8 MiB).
pub const MAX_FRAME_LEN: u32 = 8388608;

/// A body, framed.
pub open spec fn frame_of(body: Seq<u8>) -> Seq<u8> {
    be32_bytes(body.len()) + body
}

/// Why a stream of frames stopped early.
#[derive(Clone, Copy, Debug, PartialEq, Eq, Structural)]
pub enum FrameError {
    /// A length prefix announced more than `MAX_FRAME_LEN` bytes.
    TooLong,
    /// A frame's body is not one message.
    Decode(MessageDecodeError),
}

/// Frames an encoded message, or refuses one whose body is too long.
pub fn encode_frame(out: &mut Vec<u8>, m: &Message) -> (r: Result<(), FrameError>)
    ensures
        message_fits(m@),
        match r {
            Ok(()) => enc_message(m@).len() <= MAX_FRAME_LEN && final(out)@ == old(out)@
                + frame_of(enc_message(m@)),
            Err(e) => e == FrameError::TooLong && enc_message(m@).len() > MAX_FRAME_LEN
                && final(out)@ == old(out)@,
        },
{
    let body = encode_message(m);
    if body.len() > MAX_FRAME_LEN as usize {
        return Err(FrameError::TooLong);
    }
    push_be32(out, body.len() as u32);
    let ghost start = out@;
    let mut i: usize = 0;
    while i < body.len()
        invariant
            i <= body@.len(),
            out@ == start + body@.subrange(0, i as int),
        decreases body@.len() - i,
    {
        out.push(body[i]);
        i = i + 1;
        assert(out@ =~= start + body@.subrange(0, i as int));
    }
    assert(body@.subrange(0, i as int) =~= body@);
    assert(final(out)@ =~= old(out)@ + frame_of(enc_message(m@)));
    Ok(())
}

/// What stands at a position of a stream.
pub enum FrameStep {
    /// A whole frame whose body is `buf[start..end]`.
    Frame { start: usize, end: usize },
    /// Not enough bytes yet for the length prefix or the body.
    Incomplete,
    /// The length prefix announces more than `MAX_FRAME_LEN` bytes.
    TooLong,
}

pub enum StepModel {
    Frame { start: nat, end: nat },
    Incomplete,
    TooLong,
}

/// What stands at position `p` of `s`.
pub open spec fn step_at(s: Seq<u8>, p: nat) -> StepModel {
    if p + 4 > s.len() {
        StepModel::Incomplete
    } else {
        let n = be32_value(s.subrange(p as int, (p + 4) as int));
        if n > MAX_FRAME_LEN {
            StepModel::TooLong
        } else if p + 4 + n > s.len() {
            StepModel::Incomplete
        } else {
            StepModel::Frame { start: p + 4, end: p + 4 + n }
        }
    }
}

/// Looks at the frame that starts at `pos`.
pub fn next_frame(buf: &[u8], pos: usize) -> (r: FrameStep)
    requires
        pos <= buf@.len(),
    ensures
        match r {
            FrameStep::Frame { start, end } => step_at(buf@, pos as nat) == (StepModel::Frame {
                start: start as nat,
                end: end as nat,
            }),
            FrameStep::Incomplete => step_at(buf@, pos as nat) == StepModel::Incomplete,
            FrameStep::TooLong => step_at(buf@, pos as nat) == StepModel::TooLong,
        },
{
    if buf.len() - pos < 4 {
        return FrameStep::Incomplete;
    }
    let n = read_be32(buf, pos);
    if n > MAX_FRAME_LEN {
        FrameStep::TooLong
    } else if buf.len() - pos - 4 < n as usize {
        FrameStep::Incomplete
    } else {
        FrameStep::Frame { start: pos + 4, end: pos + 4 + n as usize }
    }
}

/// What reading a stream of frames yields: the messages in order, where
/// reading stopped, and why it stopped if not for want of bytes.
pub struct StreamModel {
    pub messages: Seq<MessageModel>,
    pub consumed: nat,
    pub error: Option<FrameError>,
}

pub open spec fn prepend_message(m: MessageModel, r: StreamModel) -> StreamModel {
    StreamModel { messages: seq![m] + r.messages, consumed: r.consumed, error: r.error }
}

/// Reads frames from position `p` until the bytes run out or a frame is bad.
/// A bad length prefix stops reading right before it; a bad body stops
/// reading right after its frame.
#[verifier::opaque]
pub open spec fn read_stream(s: Seq<u8>, p: nat) -> StreamModel
    decreases s.len() - p,
{
    match step_at(s, p) {
        StepModel::Incomplete => StreamModel { messages: Seq::empty(), consumed: p, error: None },
        StepModel::TooLong => StreamModel {
            messages: Seq::empty(),
            consumed: p,
            error: Some(FrameError::TooLong),
        },
        StepModel::Frame { start, end } => {
            let body = s.subrange(start as int, end as int);
            match dec_message(body, 0) {
                Some((m, q)) => if q == body.len() {
                    if end > p {
                        prepend_message(m, read_stream(s, end))
                    } else {
                        StreamModel { messages: seq![m], consumed: end, error: None }
                    }
                } else {
                    StreamModel {
                        messages: Seq::empty(),
                        consumed: end,
                        error: Some(FrameError::Decode(MessageDecodeError::TrailingBytes)),
                    }
                },
                None => StreamModel {
                    messages: Seq::empty(),
                    consumed: end,
                    error: Some(FrameError::Decode(MessageDecodeError::Malformed)),
                },
            }
        },
    }
}

/// The messages read from a buffer, where reading stopped, and why.
pub struct Decoded {
    pub messages: Vec<Message>,
    pub consumed: usize,
    pub error: Option<FrameError>,
}

/// Reads every whole frame of `buf`, stopping at the first bad one.
pub fn decode_frames(buf: &[u8]) -> (r: Decoded)
    ensures
        r.messages@.map_values(|m: Message| m@) == read_stream(buf@, 0).messages,
        r.consumed == read_stream(buf@, 0).consumed,
        r.error == read_stream(buf@, 0).error,
{
    let mut messages: Vec<Message> = Vec::new();
    let mut pos: usize = 0;
    loop
        invariant
            pos <= buf@.len(),
            read_stream(buf@, 0) == (StreamModel {
                messages: messages@.map_values(|m: Message| m@) + read_stream(
                    buf@,
                    pos as nat,
                ).messages,
                consumed: read_stream(buf@, pos as nat).consumed,
                error: read_stream(buf@, pos as nat).error,
            }),
        decreases buf@.len() - pos,
    {
        let ghost before = messages@.map_values(|m: Message| m@);
        proof {
            reveal(read_stream);
        }
        match next_frame(buf, pos) {
            FrameStep::Incomplete => {
                assert(before + Seq::<MessageModel>::empty() =~= before);
                return Decoded { messages, consumed: pos, error: None };
            },
            FrameStep::TooLong => {
                assert(before + Seq::<MessageModel>::empty() =~= before);
                return Decoded { messages, consumed: pos, error: Some(FrameError::TooLong) };
            },
            FrameStep::Frame { start, end } => {
                let body = vstd::slice::slice_subrange(buf, start, end);
                match decode_message(body) {
                    Ok(m) => {
                        let ghost mm = m@;
                        messages.push(m);
                        proof {
                            assert(messages@.map_values(|m: Message| m@) =~= before + seq![mm]);
                            if end > pos {
                                let rest = read_stream(buf@, end as nat).messages;
                                assert(before + (seq![mm] + rest) =~= (before + seq![mm]) + rest);
                            }
                        }
                        pos = end;
                    },
                    Err(e) => {
                        assert(before + Seq::<MessageModel>::empty() =~= before);
                        return Decoded { messages, consumed: end, error: Some(FrameError::Decode(e)) };
                    },
                }
            },
        }
    }
}

/// A message that can travel in one frame.
pub open spec fn frameable(m: MessageModel) -> bool {
    message_fits(m) && enc_message(m).len() <= MAX_FRAME_LEN
}

/// The frames of messages, one after the other.
pub open spec fn frames_of(ms: Seq<MessageModel>) -> Seq<u8>
    decreases ms.len(),
{
    if ms.len() == 0 {
        Seq::empty()
    } else {
        frame_of(enc_message(ms[0])) + frames_of(ms.drop_first())
    }
}

pub open spec fn prepend_messages(ms: Seq<MessageModel>, r: StreamModel) -> StreamModel {
    StreamModel { messages: ms + r.messages, consumed: r.consumed, error: r.error }
}

proof fn lemma_one_frame(s: Seq<u8>, p: nat, m: MessageModel)
    requires
        frameable(m),
        holds_at(s, p, frame_of(enc_message(m))),
    ensures
        read_stream(s, p) == prepend_message(m, read_stream(s, p + frame_of(enc_message(m)).len())),
        frame_of(enc_message(m)).len() == 4 + enc_message(m).len(),
{
    reveal(read_stream);
    let e = enc_message(m);
    lemma_be32_round_trip(e.len());
    lemma_holds_split(s, p, be32_bytes(e.len()), e);
    lemma_message_round_trip(m);
    assert(s.subrange(p as int, (p + 4) as int) == be32_bytes(e.len()));
    assert(step_at(s, p) == (StepModel::Frame { start: p + 4, end: p + 4 + e.len() }));
    assert(s.subrange((p + 4) as int, (p + 4 + e.len()) as int) == e);
}

proof fn lemma_stream_at_end(s: Seq<u8>, p: nat)
    requires
        p + 4 > s.len(),
    ensures
        read_stream(s, p) == (StreamModel { messages: Seq::empty(), consumed: p, error: None }),
{
    reveal(read_stream);
}

proof fn lemma_stream_too_long(s: Seq<u8>, p: nat)
    requires
        p + 4 <= s.len(),
        be32_value(s.subrange(p as int, (p + 4) as int)) > MAX_FRAME_LEN,
    ensures
        read_stream(s, p) == (StreamModel {
            messages: Seq::empty(),
            consumed: p,
            error: Some(FrameError::TooLong),
        }),
{
    reveal(read_stream);
}

/// Reading a stream that starts with the frames of some messages yields
/// exactly those messages first, then what the rest of the stream yields.
pub proof fn lemma_frames_prefix(s: Seq<u8>, p: nat, ms: Seq<MessageModel>)
    requires
        forall|i: int| 0 <= i < ms.len() ==> #[trigger] frameable(ms[i]),
        holds_at(s, p, frames_of(ms)),
    ensures
        read_stream(s, p) == prepend_messages(ms, read_stream(s, p + frames_of(ms).len())),
    decreases ms.len(),
{
    if ms.len() == 0 {
        assert(Seq::<MessageModel>::empty() + read_stream(s, p).messages =~= read_stream(
            s,
            p,
        ).messages);
    } else {
        let f = frame_of(enc_message(ms[0]));
        let rest = ms.drop_first();
        assert(frameable(ms[0]));
        lemma_holds_split(s, p, f, frames_of(rest));
        lemma_one_frame(s, p, ms[0]);
        assert forall|i: int| 0 <= i < rest.len() implies #[trigger] frameable(rest[i]) by {
            assert(rest[i] == ms[i + 1]);
        }
        lemma_frames_prefix(s, p + f.len(), rest);
        let tail = read_stream(s, p + frames_of(ms).len()).messages;
        assert(seq![ms[0]] + (rest + tail) =~= ms + tail);
    }
}

/// Framing round trip: a stream made of the frames of some messages reads
/// back as exactly those messages, all bytes consumed, with no error.
pub proof fn lemma_stream_round_trip(ms: Seq<MessageModel>)
    requires
        forall|i: int| 0 <= i < ms.len() ==> #[trigger] frameable(ms[i]),
    ensures
        read_stream(frames_of(ms), 0) == (StreamModel {
            messages: ms,
            consumed: frames_of(ms).len(),
            error: None,
        }),
{
    let s = frames_of(ms);
    assert(s.subrange(0, s.len() as int) =~= s);
    lemma_frames_prefix(s, 0, ms);
    lemma_stream_at_end(s, s.len());
    assert(ms + Seq::<MessageModel>::empty() =~= ms);
}

/// A length prefix that announces too much is rejected where it stands:
/// the frames before it are delivered, and neither it nor anything after it
/// is consumed.
pub proof fn lemma_bad_prefix_rejected(ms: Seq<MessageModel>, tail: Seq<u8>)
    requires
        forall|i: int| 0 <= i < ms.len() ==> #[trigger] frameable(ms[i]),
        tail.len() >= 4,
        be32_value(tail.subrange(0, 4)) > MAX_FRAME_LEN,
    ensures
        read_stream(frames_of(ms) + tail, 0) == (StreamModel {
            messages: ms,
            consumed: frames_of(ms).len(),
            error: Some(FrameError::TooLong),
        }),
{
    let f = frames_of(ms);
    let s = f + tail;
    assert(s.subrange(0, f.len() as int) =~= f);
    lemma_frames_prefix(s, 0, ms);
    assert(s.subrange(f.len() as int, (f.len() + 4) as int) =~= tail.subrange(0, 4));
    lemma_stream_too_long(s, f.len());
    assert(ms + Seq::<MessageModel>::empty() =~= ms);
}

} // verus!
