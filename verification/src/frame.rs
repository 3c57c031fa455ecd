//! Framing messages for a stream: each goes behind its length.
//!
//! Outgoing bytes collect in a `bytes::BytesMut`, and the length-delimited codec
//! of `tokio-util` writes the frames. Both are opaque here: `contents` names the
//! bytes that a buffer holds.

use bytes::{Bytes, BytesMut};
use tokio_util::codec::{Encoder, LengthDelimitedCodec};
use vstd::prelude::*;

use crate::error::SyncSendError;

verus! {

/// `bytes::BytesMut`, as an opaque type.
#[verifier::external_type_specification]
#[verifier::external_body]
pub struct ExBytesMut(BytesMut);

/// `std::io::Error`, as an opaque type.
#[verifier::external_type_specification]
#[verifier::external_body]
pub struct ExIoError(std::io::Error);

/// The bytes that a buffer holds.
pub uninterp spec fn contents(buffer: BytesMut) -> Seq<u8>;

/// The longest message that fits into a frame.
pub const MAX_FRAME_LEN: usize = 8388608;

/// A buffer is never filled beyond this, a quarter of what an allocation can be, so that
/// it can always grow.
pub const MAX_BUFFER_LEN: usize = usize::MAX / 8;

/// A number below 2^32 as four bytes, the highest first.
pub open spec fn be32(n: nat) -> Seq<u8> {
    seq![
        (n / 0x100_0000 % 256) as u8,
        (n / 0x1_0000 % 256) as u8,
        (n / 0x100 % 256) as u8,
        (n % 256) as u8,
    ]
}

/// The frame of a message: its length, then the message.
pub open spec fn frame(message: Seq<u8>) -> Seq<u8> {
    be32(message.len()) + message
}

/// The frames of some messages, one behind the other.
pub open spec fn frames(messages: Seq<Seq<u8>>) -> Seq<u8>
    decreases messages.len(),
{
    if messages.len() == 0 {
        Seq::empty()
    } else {
        frames(messages.drop_last()) + frame(messages.last())
    }
}

/// Whether a buffer that holds `waiting` can take the frame of a message, if there is
/// one.
pub open spec fn room_for(waiting: Seq<u8>, message: Seq<u8>) -> bool {
    message.len() <= MAX_FRAME_LEN ==> waiting.len() + 4 + message.len() <= MAX_BUFFER_LEN
}

/// `BytesMut::new`: a buffer without bytes.
#[verifier::external_body]
pub(crate) fn new_buffer() -> (buffer: BytesMut)
    ensures
        contents(buffer) == Seq::<u8>::empty(),
{
    BytesMut::new()
}

/// `BytesMut::len`: how many bytes a buffer holds.
#[verifier::external_body]
pub(crate) fn buffer_len(buffer: &BytesMut) -> (len: usize)
    ensures
        len == contents(*buffer).len(),
{
    buffer.len()
}

/// `BytesMut::split`: takes all bytes out of a buffer.
#[verifier::external_body]
pub(crate) fn take_all(buffer: &mut BytesMut) -> (bytes: Vec<u8>)
    ensures
        bytes@ == contents(*old(buffer)),
        contents(*final(buffer)) == Seq::<u8>::empty(),
{
    buffer.split().freeze().to_vec()
}

/// `LengthDelimitedCodec::encode`, of a codec as `LengthDelimitedCodec::new`
/// makes it: appends the frame of `message` to `buffer`, unless the message is
/// too long; then the buffer stays as it is. Encoding leaves nothing behind in
/// the codec, so a new one serves each call. The buffer panics if it would grow
/// beyond what an allocation can be.
#[verifier::external_body]
fn append_frame(message: Vec<u8>, buffer: &mut BytesMut) -> (appended: Result<(), std::io::Error>)
    requires
        room_for(contents(*old(buffer)), message@),
    ensures
        appended is Ok <==> message.len() <= MAX_FRAME_LEN,
        contents(*final(buffer)) == (if message.len() <= MAX_FRAME_LEN {
            contents(*old(buffer)) + frame(message@)
        } else {
            contents(*old(buffer))
        }),
{
    LengthDelimitedCodec::new().encode(Bytes::from(message), buffer)
}

/// What a message that is too long for a frame is answered.
pub open spec fn frame_too_big() -> Seq<char> {
    "frame size too big"@
}

/// Appends an encoded message to the bytes that wait to be sent. A message that
/// does not fit into a frame is refused and leaves them as they are.
pub fn encode_sync_msg(message: Vec<u8>, send_buf: &mut BytesMut) -> (sent: Result<
    (),
    SyncSendError,
>)
    requires
        room_for(contents(*old(send_buf)), message@),
    ensures
        match sent {
            Ok(()) => message.len() <= MAX_FRAME_LEN && contents(*final(send_buf)) == contents(
                *old(send_buf),
            ) + frame(message@),
            Err(SyncSendError::Io(text)) => message.len() > MAX_FRAME_LEN && text@
                == frame_too_big() && contents(*final(send_buf)) == contents(*old(send_buf)),
            Err(_) => false,
        },
{
    match append_frame(message, send_buf) {
        Ok(()) => Ok(()),
        Err(_) => Err(SyncSendError::Io("frame size too big".to_string())),
    }
}

/// Appends an encoded message to the bytes that wait to be sent, and takes them all
/// to be written now.
pub fn encode_write_sync_msg(message: Vec<u8>, send_buf: &mut BytesMut) -> (sent: Result<
    Vec<u8>,
    SyncSendError,
>)
    requires
        room_for(contents(*old(send_buf)), message@),
    ensures
        match sent {
            Ok(bytes) => message.len() <= MAX_FRAME_LEN && bytes@ == contents(*old(send_buf))
                + frame(message@) && contents(*final(send_buf)) == Seq::<u8>::empty(),
            Err(SyncSendError::Io(text)) => message.len() > MAX_FRAME_LEN && text@
                == frame_too_big() && contents(*final(send_buf)) == contents(*old(send_buf)),
            Err(_) => false,
        },
{
    match encode_sync_msg(message, send_buf) {
        Ok(()) => Ok(take_all(send_buf)),
        Err(error) => Err(error),
    }
}

/// The number that four bytes stand for, the highest first.
pub open spec fn be32_value(bytes: Seq<u8>) -> nat {
    (bytes[0] * 0x100_0000 + bytes[1] * 0x1_0000 + bytes[2] * 0x100 + bytes[3]) as nat
}

/// The messages whose frames stand at the beginning of `bytes`.
pub open spec fn unframe(bytes: Seq<u8>) -> Seq<Seq<u8>>
    decreases bytes.len(),
{
    if bytes.len() < 4 || bytes.len() < 4 + be32_value(bytes.take(4)) {
        Seq::empty()
    } else {
        let end = 4 + be32_value(bytes.take(4)) as int;
        seq![bytes.subrange(4, end)] + unframe(bytes.skip(end))
    }
}

/// Four bytes stand for the number that they were made of.
pub proof fn lemma_be32_value(n: nat)
    requires
        n < 0x1_0000_0000,
    ensures
        be32_value(be32(n)) == n,
{
}

/// The frames of some messages begin with that of the first.
pub proof fn lemma_frames_first(messages: Seq<Seq<u8>>)
    requires
        messages.len() > 0,
    ensures
        frames(messages) == frame(messages[0]) + frames(messages.skip(1)),
    decreases messages.len(),
{
    if messages.len() == 1 {
        assert(messages.drop_last() =~= Seq::empty());
        assert(messages.skip(1) =~= Seq::empty());
        assert(frames(messages) =~= frame(messages[0]) + frames(messages.skip(1)));
    } else {
        lemma_frames_first(messages.drop_last());
        assert(messages.drop_last().skip(1) =~= messages.skip(1).drop_last());
        assert(frames(messages) =~= frame(messages[0]) + frames(messages.skip(1)));
    }
}

/// Encoding one message after the other into a buffer that held nothing leaves the frames
/// of all of them there, in their order, and they can be told apart again.
pub proof fn law_encoded_one_by_one(messages: Seq<Seq<u8>>, message: Seq<u8>)
    requires
        forall|i: int| 0 <= i < messages.len() ==> (#[trigger] messages[i]).len() <= MAX_FRAME_LEN,
        message.len() <= MAX_FRAME_LEN,
    ensures
        frames(Seq::empty()) == Seq::<u8>::empty(),
        frames(messages) + frame(message) == frames(messages.push(message)),
        unframe(frames(messages) + frame(message)) == messages.push(message),
{
    let all = messages.push(message);
    assert(all.drop_last() =~= messages);
    law_frames_read_back(all);
}

/// What was framed can be told apart again: the frames of some messages, one behind
/// the other, give these messages back, in their order.
pub proof fn law_frames_read_back(messages: Seq<Seq<u8>>)
    requires
        forall|i: int| 0 <= i < messages.len() ==> (#[trigger] messages[i]).len() <= MAX_FRAME_LEN,
    ensures
        unframe(frames(messages)) == messages,
    decreases messages.len(),
{
    if messages.len() > 0 {
        let first = messages[0];
        let rest = messages.skip(1);
        let bytes = frames(messages);
        lemma_frames_first(messages);
        lemma_be32_value(first.len());
        assert(bytes.take(4) =~= be32(first.len()));
        assert(bytes.subrange(4, 4 + first.len() as int) =~= first);
        assert(bytes.skip(4 + first.len() as int) =~= frames(rest));
        law_frames_read_back(rest);
        assert(seq![first] + rest =~= messages);
    }
}

} // verus!
