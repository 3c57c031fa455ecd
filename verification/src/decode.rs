//! Telling the frames of a stream apart as its bytes come in.

use bytes::BytesMut;
use tokio_util::codec::{Decoder, LengthDelimitedCodec};
use vstd::prelude::*;

use crate::error::SyncRecvError;
use crate::frame;
use crate::sync;

verus! {

/// What a stream begins with.
#[verifier::ext_equal]
pub enum Decoded {
    /// The frame of this message.
    Message(Seq<u8>),
    /// More bytes have to come.
    NeedMore,
    /// The length of a message that is too long for a frame.
    TooBig,
}

/// What a stream begins with: first there is a length, then as many bytes.
pub open spec fn first_frame(stream: Seq<u8>) -> Decoded {
    let n = frame::be32_value(stream.take(4));
    if stream.len() >= 4 && n > frame::MAX_FRAME_LEN {
        Decoded::TooBig
    } else if stream.len() < 4 || stream.len() < 4 + n {
        Decoded::NeedMore
    } else {
        Decoded::Message(stream.subrange(4, 4 + n as int))
    }
}

/// What is left of a stream once its first message is taken, if there is a whole one.
pub open spec fn rest_of(stream: Seq<u8>) -> Seq<u8> {
    match first_frame(stream) {
        Decoded::Message(message) => stream.skip(4 + message.len() as int),
        _ => stream,
    }
}

/// `tokio_util::codec::LengthDelimitedCodec`, as an opaque type.
#[verifier::external_type_specification]
#[verifier::external_body]
pub struct ExLengthDelimitedCodec(LengthDelimitedCodec);

/// Whether a codec is configured as `LengthDelimitedCodec::new` does it, and awaits no
/// message that is too long.
pub uninterp spec fn is_standard(codec: LengthDelimitedCodec) -> bool;

/// The length of the next message, as it stood in the stream, if a codec took it off the
/// stream already.
pub uninterp spec fn head_of(codec: LengthDelimitedCodec) -> Seq<u8>;

/// `LengthDelimitedCodec::new`: a codec that took nothing off a stream yet.
#[verifier::external_body]
fn new_codec() -> (codec: LengthDelimitedCodec)
    ensures
        is_standard(codec),
        head_of(codec) == Seq::<u8>::empty(),
{
    LengthDelimitedCodec::new()
}

/// `LengthDelimitedCodec::decode`: takes the first message of a stream, if it is there. The
/// stream is what the codec took off it before and what the buffer holds. The length is
/// taken off as soon as it is there, unless it is too large: that is an error, and changes
/// nothing.
#[verifier::external_body]
fn decode_frame(codec: &mut LengthDelimitedCodec, buffer: &mut BytesMut) -> (message: Result<
    Option<Vec<u8>>,
    std::io::Error,
>)
    requires
        is_standard(*old(codec)),
    ensures
        is_standard(*final(codec)),
        head_of(*final(codec)) + frame::contents(*final(buffer)) == rest_of(
            head_of(*old(codec)) + frame::contents(*old(buffer)),
        ),
        head_of(*final(codec)) == head_left(
            head_of(*old(codec)) + frame::contents(*old(buffer)),
        ),
        match first_frame(head_of(*old(codec)) + frame::contents(*old(buffer))) {
            Decoded::Message(bytes) => message matches Ok(Some(found)) && found@ == bytes,
            Decoded::NeedMore => message matches Ok(None),
            Decoded::TooBig => message is Err,
        },
{
    Ok(codec.decode(buffer)?.map(|message| message.to_vec()))
}

/// The length that is taken off a stream while its message is awaited.
pub open spec fn head_left(stream: Seq<u8>) -> Seq<u8> {
    if first_frame(stream) is NeedMore && stream.len() >= 4 {
        stream.take(4)
    } else {
        Seq::empty()
    }
}

/// Tells the frames of one stream apart.
pub struct FrameDecoder {
    codec: LengthDelimitedCodec,
}

impl View for FrameDecoder {
    type V = Seq<u8>;

    /// The length of the next message, if it was taken off the stream already.
    closed spec fn view(&self) -> Seq<u8> {
        head_of(self.codec)
    }
}

impl FrameDecoder {
    /// What holds of every value.
    pub closed spec fn wf(self) -> bool {
        is_standard(self.codec)
    }

    /// Awaits the first frame.
    pub fn new() -> (this: FrameDecoder)
        ensures
            this.wf(),
            this@ == Seq::<u8>::empty(),
    {
        FrameDecoder { codec: new_codec() }
    }

    /// Takes the next message out of the bytes that came in; `None` if more have to come.
    /// Its length is taken off them as soon as it is there. A message that is too long for
    /// a frame is an error.
    pub fn decode(&mut self, buffer: &mut BytesMut) -> (message: Result<
        Option<Vec<u8>>,
        SyncRecvError,
    >)
        requires
            old(self).wf(),
        ensures
            final(self).wf(),
            ({
                let stream = old(self)@ + frame::contents(*old(buffer));
                &&& final(self)@ + frame::contents(*final(buffer)) == rest_of(stream)
                &&& final(self)@ == head_left(stream)
                &&& match first_frame(stream) {
                    Decoded::Message(bytes) => message matches Ok(Some(found)) && found@ == bytes,
                    Decoded::NeedMore => message == Ok::<Option<Vec<u8>>, SyncRecvError>(None),
                    Decoded::TooBig => message matches Err(SyncRecvError::Io(text)) && text@
                        == frame::frame_too_big(),
                }
            }),
    {
        match decode_frame(&mut self.codec, buffer) {
            Ok(message) => Ok(message),
            Err(_) => Err(SyncRecvError::Io("frame size too big".to_string())),
        }
    }
}

/// Four bytes are those of the number that they stand for.
proof fn lemma_be32(bytes: Seq<u8>)
    requires
        bytes.len() == 4,
    ensures
        frame::be32(frame::be32_value(bytes)) == bytes,
{
    let n = frame::be32_value(bytes) as int;
    let (a, b, c, d) = (bytes[0] as int, bytes[1] as int, bytes[2] as int, bytes[3] as int);
    assert(n / 0x100_0000 == a && n / 0x1_0000 == a * 256 + b && n / 0x100 == (a * 256 + b) * 256
        + c);
    assert(frame::be32(n as nat) =~= bytes);
}

/// A message that is taken is the first of the stream, and what is left is the rest of it.
/// If more has to come the stream does not begin with a whole frame.
pub proof fn law_decode_takes_the_first(stream: Seq<u8>)
    ensures
        match first_frame(stream) {
            Decoded::Message(message) => {
                &&& message.len() <= frame::MAX_FRAME_LEN
                &&& stream == frame::frame(message) + rest_of(stream)
            },
            Decoded::NeedMore => frame::unframe(stream).len() == 0,
            Decoded::TooBig => frame::be32_value(stream.take(4)) > frame::MAX_FRAME_LEN,
        },
{
    if let Decoded::Message(message) = first_frame(stream) {
        lemma_be32(stream.take(4));
        assert(stream =~= frame::frame(message) + rest_of(stream));
    }
}

/// The messages that can be taken out of a stream, and what is left then.
pub open spec fn read_on(stream: Seq<u8>) -> (Seq<Seq<u8>>, Seq<u8>)
    decreases stream.len(),
{
    match first_frame(stream) {
        Decoded::Message(message) => {
            let (messages, left) = read_on(rest_of(stream));
            (seq![message] + messages, left)
        },
        _ => (Seq::empty(), stream),
    }
}

/// The messages that are read as some chunks of bytes come in, and what is left then.
pub open spec fn read_all(chunks: Seq<Seq<u8>>) -> (Seq<Seq<u8>>, Seq<u8>)
    decreases chunks.len(),
{
    if chunks.len() == 0 {
        (Seq::empty(), Seq::empty())
    } else {
        let (messages, left) = read_all(chunks.drop_last());
        let (more, rest) = read_on(left + chunks.last());
        (messages + more, rest)
    }
}

/// All bytes of some chunks, in their order.
pub open spec fn joined(chunks: Seq<Seq<u8>>) -> Seq<u8>
    decreases chunks.len(),
{
    if chunks.len() == 0 {
        Seq::empty()
    } else {
        joined(chunks.drop_last()) + chunks.last()
    }
}

/// Whether all messages fit into frames.
pub open spec fn all_fit(messages: Seq<Seq<u8>>) -> bool {
    forall|i: int|
        0 <= i < messages.len() ==> (#[trigger] messages[i]).len() <= frame::MAX_FRAME_LEN
}

proof fn lemma_frames_join(a: Seq<Seq<u8>>, b: Seq<Seq<u8>>)
    ensures
        frame::frames(a + b) == frame::frames(a) + frame::frames(b),
    decreases b.len(),
{
    if b.len() == 0 {
        assert(a + b =~= a);
        assert(frame::frames(a) + frame::frames(b) =~= frame::frames(a));
    } else {
        lemma_frames_join(a, b.drop_last());
        assert((a + b).drop_last() =~= a + b.drop_last());
        assert(frame::frames(a + b) =~= frame::frames(a) + frame::frames(b));
    }
}

proof fn lemma_unframe_join(messages: Seq<Seq<u8>>, rest: Seq<u8>)
    requires
        all_fit(messages),
    ensures
        frame::unframe(frame::frames(messages) + rest) == messages + frame::unframe(rest),
    decreases messages.len(),
{
    let bytes = frame::frames(messages) + rest;
    if messages.len() == 0 {
        assert(bytes =~= rest);
        assert(messages + frame::unframe(rest) =~= frame::unframe(rest));
    } else {
        let first = messages[0];
        let others = messages.skip(1);
        frame::lemma_frames_first(messages);
        frame::lemma_be32_value(first.len());
        let end = 4 + first.len() as int;
        assert(bytes.take(4) =~= frame::be32(first.len()));
        assert(bytes.subrange(4, end) =~= first);
        assert(bytes.skip(end) =~= frame::frames(others) + rest);
        lemma_unframe_join(others, rest);
        assert(seq![first] + (others + frame::unframe(rest)) =~= messages + frame::unframe(rest));
    }
}

/// Whether a stream is left as reading leaves it.
spec fn read_out(stream: Seq<u8>) -> bool {
    frame::unframe(stream).len() == 0 || frame::be32_value(stream.take(4)) > frame::MAX_FRAME_LEN
}

proof fn lemma_read_on(stream: Seq<u8>)
    ensures
        all_fit(read_on(stream).0),
        read_out(read_on(stream).1),
        stream == frame::frames(read_on(stream).0) + read_on(stream).1,
    decreases stream.len(),
{
    law_decode_takes_the_first(stream);
    let (messages, left) = read_on(stream);
    match first_frame(stream) {
        Decoded::Message(message) => {
            let next = rest_of(stream);
            lemma_read_on(next);
            let (more, rest) = read_on(next);
            assert(messages == seq![message] + more);
            lemma_frames_join(seq![message], more);
            assert(seq![message].drop_last() =~= Seq::empty());
            reveal_with_fuel(frame::frames, 2);
            assert(frame::frames(seq![message]) =~= frame::frame(message));
            assert(stream =~= frame::frames(messages) + left);
        },
        _ => {
            assert(frame::frames(messages) + left =~= left);
        },
    }
}

proof fn lemma_read_all(chunks: Seq<Seq<u8>>)
    ensures
        all_fit(read_all(chunks).0),
        read_out(read_all(chunks).1),
        joined(chunks) == frame::frames(read_all(chunks).0) + read_all(chunks).1,
    decreases chunks.len(),
{
    if chunks.len() == 0 {
        assert(joined(chunks) =~= frame::frames(read_all(chunks).0) + read_all(chunks).1);
    } else {
        lemma_read_all(chunks.drop_last());
        let (messages, left) = read_all(chunks.drop_last());
        let stream = left + chunks.last();
        lemma_read_on(stream);
        let (more, rest) = read_on(stream);
        lemma_frames_join(messages, more);
        assert(joined(chunks) =~= frame::frames(messages) + stream);
        assert(joined(chunks) =~= frame::frames(messages + more) + rest);
    }
}

/// What was written is what is read. If the bytes that come in, in whatever chunks, are the
/// frames of some messages, just these messages are read, in their order, and nothing is
/// left then.
pub proof fn law_written_is_read(messages: Seq<Seq<u8>>, chunks: Seq<Seq<u8>>)
    requires
        all_fit(messages),
        joined(chunks) == frame::frames(messages),
    ensures
        read_all(chunks) == (messages, Seq::<u8>::empty()),
{
    lemma_read_all(chunks);
    let (read, rest) = read_all(chunks);
    let after = frame::unframe(rest);
    frame::law_frames_read_back(messages);
    lemma_unframe_join(read, rest);
    assert(messages == read + after);
    if after.len() > 0 {
        assert(after[0] =~= rest.subrange(4, 4 + frame::be32_value(rest.take(4)) as int));
        assert(messages[read.len() as int] == after[0]);
        assert(messages[read.len() as int].len() <= frame::MAX_FRAME_LEN);
    }
    assert(read + after =~= read);
    assert(rest.len() == 0) by {
        assert((frame::frames(read) + rest).len() == frame::frames(read).len());
    }
    assert(rest =~= Seq::empty());
}

/// The messages that are sent are the messages that are read, in their order, and then the
/// end of the stream. `encode` and `decode` stand for how a message is written down.
pub proof fn law_sent_is_received<M>(
    encode: spec_fn(M) -> Seq<u8>,
    decode: spec_fn(Seq<u8>) -> Result<M, String>,
    messages: Seq<M>,
    chunks: Seq<Seq<u8>>,
)
    requires
        forall|i: int|
            0 <= i < messages.len() ==> decode(encode(#[trigger] messages[i])) == Ok::<M, String>(
                messages[i],
            ),
        all_fit(messages.map_values(encode)),
        joined(chunks) == frame::frames(messages.map_values(encode)),
    ensures
        read_all(chunks).0.len() == messages.len(),
        forall|i: int|
            0 <= i < messages.len() ==> sync::read_in(
                Some(Ok(decode(#[trigger] read_all(chunks).0[i]))),
            ) == Ok::<Option<M>, SyncRecvError>(Some(messages[i])),
        read_all(chunks).1 == Seq::<u8>::empty(),
        sync::read_in::<M>(None) == Ok::<Option<M>, SyncRecvError>(None),
{
    law_written_is_read(messages.map_values(encode), chunks);
    assert forall|i: int| 0 <= i < messages.len() implies sync::read_in(
        Some(Ok(decode(#[trigger] read_all(chunks).0[i]))),
    ) == Ok::<Option<M>, SyncRecvError>(Some(messages[i])) by {
        assert(read_all(chunks).0[i] == encode(messages[i]));
    }
}

} // verus!
