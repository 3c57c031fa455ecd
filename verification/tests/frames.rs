use bytes::BytesMut;
use corro_sync::decode::FrameDecoder;
use corro_sync::error::{SyncRecvError, SyncSendError};
use corro_sync::frame::{encode_sync_msg, encode_write_sync_msg, MAX_FRAME_LEN};
use corro_sync::serve::{ServeWriter, FLUSH_LEN};
use tokio_util::codec::{Decoder, LengthDelimitedCodec};

#[test]
fn a_message_goes_behind_its_length() {
    let mut buf = BytesMut::new();
    assert_eq!(encode_sync_msg(vec![7, 8, 9], &mut buf), Ok(()));
    assert_eq!(&buf[..], &[0, 0, 0, 3, 7, 8, 9]);
    assert_eq!(encode_sync_msg(vec![0; 258], &mut buf), Ok(()));
    assert_eq!(&buf[..11], &[0, 0, 0, 3, 7, 8, 9, 0, 0, 1, 2]);
    assert_eq!(buf.len(), 7 + 4 + 258);
}

#[test]
fn a_message_that_is_too_long_is_refused() {
    let mut buf = BytesMut::from(&[1u8, 2][..]);
    assert_eq!(
        encode_sync_msg(vec![0; MAX_FRAME_LEN + 1], &mut buf),
        Err(SyncSendError::Io("frame size too big".to_string()))
    );
    assert_eq!(&buf[..], &[1, 2]);
    assert_eq!(encode_sync_msg(vec![0; MAX_FRAME_LEN], &mut buf), Ok(()));
}

#[test]
fn writing_takes_everything_that_waits() {
    let mut buf = BytesMut::from(&[1u8, 2][..]);
    assert_eq!(
        encode_write_sync_msg(vec![5], &mut buf),
        Ok(vec![1, 2, 0, 0, 0, 1, 5])
    );
    assert!(buf.is_empty());
    assert_eq!(
        encode_write_sync_msg(vec![0; MAX_FRAME_LEN + 1], &mut buf),
        Err(SyncSendError::Io("frame size too big".to_string()))
    );
}

#[test]
fn frames_are_read_back() {
    let messages = vec![vec![1u8, 2, 3], vec![], vec![9u8; 300]];
    let mut buf = BytesMut::new();
    for message in &messages {
        assert_eq!(encode_sync_msg(message.clone(), &mut buf), Ok(()));
    }
    let mut codec = LengthDelimitedCodec::new();
    for message in &messages {
        match codec.decode(&mut buf) {
            Ok(Some(read)) => assert_eq!(&read[..], &message[..]),
            other => panic!("{other:?}"),
        }
    }
    assert!(buf.is_empty());
}

#[test]
fn a_writer_waits_until_there_is_enough() {
    let mut writer = ServeWriter::new();
    assert_eq!(writer.on_message(vec![1; 100], 3), Ok(None));
    let written = writer.on_message(vec![2; FLUSH_LEN - 108], 4);
    match written {
        Ok(Some(bytes)) => {
            assert_eq!(bytes.len(), FLUSH_LEN);
            assert_eq!(&bytes[..5], &[0, 0, 0, 100, 1]);
        }
        other => panic!("{other:?}"),
    }
    assert_eq!(writer.count(), 7);
    assert_eq!(writer.on_tick(), None);
}

#[test]
fn one_byte_less_is_not_enough() {
    let mut writer = ServeWriter::new();
    assert_eq!(writer.on_message(vec![2; FLUSH_LEN - 5], 0), Ok(None));
    let end = writer.finish(false);
    assert_eq!(end.write.map(|bytes| bytes.len()), Some(FLUSH_LEN - 1));
}

#[test]
fn a_writer_gives_what_waits_from_time_to_time() {
    let mut writer = ServeWriter::new();
    assert_eq!(writer.on_tick(), None);
    assert_eq!(writer.on_message(vec![4], 1), Ok(None));
    assert_eq!(writer.on_tick(), Some(vec![0, 0, 0, 1, 4]));
    assert_eq!(writer.on_tick(), None);
}

#[test]
fn a_writer_ends_with_what_waits() {
    let mut writer = ServeWriter::new();
    assert_eq!(writer.on_message(vec![4], 2), Ok(None));
    let end = writer.finish(false);
    assert_eq!(end.write, Some(vec![0, 0, 0, 1, 4]));
    assert!(end.finish);
    assert_eq!(end.count, 2);
}

#[test]
fn a_stopped_writer_writes_nothing_more() {
    let mut writer = ServeWriter::new();
    assert_eq!(writer.on_message(vec![4], 2), Ok(None));
    let end = writer.finish(true);
    assert_eq!(end.write, None);
    assert!(!end.finish);
    assert_eq!(end.count, 2);
}

#[test]
fn a_writer_counts_a_message_that_it_cannot_frame() {
    let mut writer = ServeWriter::new();
    assert_eq!(
        writer.on_message(vec![0; MAX_FRAME_LEN + 1], 5),
        Err(SyncSendError::Io("frame size too big".to_string()))
    );
    assert_eq!(writer.count(), 5);
    assert_eq!(writer.on_tick(), None);
}

#[test]
fn what_is_written_are_the_frames_in_their_order() {
    let mut writer = ServeWriter::new();
    let mut written: Vec<u8> = vec![];
    let mut expected: Vec<u8> = vec![];
    for i in 0u8..40 {
        let message = vec![i; 1000];
        expected.extend_from_slice(&1000u32.to_be_bytes());
        expected.extend_from_slice(&message);
        match writer.on_message(message, 1) {
            Ok(Some(bytes)) => written.extend(bytes),
            Ok(None) => {}
            Err(error) => panic!("{error:?}"),
        }
        if i % 7 == 0 {
            written.extend(writer.on_tick().unwrap_or_default());
        }
    }
    written.extend(writer.finish(false).write.unwrap_or_default());
    assert_eq!(written, expected);
}

#[test]
fn a_decoder_waits_for_a_whole_frame() {
    let mut decoder = FrameDecoder::new();
    let mut buf = BytesMut::from(&[0u8, 0, 0][..]);
    assert_eq!(decoder.decode(&mut buf), Ok(None));
    assert_eq!(&buf[..], &[0, 0, 0]);
    buf.extend_from_slice(&[3, 7]);
    assert_eq!(decoder.decode(&mut buf), Ok(None));
    assert_eq!(&buf[..], &[7]);
    buf.extend_from_slice(&[8, 9, 0, 0]);
    assert_eq!(decoder.decode(&mut buf), Ok(Some(vec![7, 8, 9])));
    assert_eq!(&buf[..], &[0, 0]);
    buf.extend_from_slice(&[0, 0]);
    assert_eq!(decoder.decode(&mut buf), Ok(Some(vec![])));
    assert_eq!(decoder.decode(&mut buf), Ok(None));
    assert!(buf.is_empty());
}

#[test]
fn a_decoder_refuses_a_frame_that_is_too_long() {
    let mut decoder = FrameDecoder::new();
    let mut buf = BytesMut::from(&[0u8, 0x80, 0, 1, 5][..]);
    assert_eq!(
        decoder.decode(&mut buf),
        Err(SyncRecvError::Io("frame size too big".to_string()))
    );
    assert_eq!(&buf[..], &[0, 0x80, 0, 1, 5]);
    let mut buf = BytesMut::from(&[0u8, 0x80, 0, 0, 5][..]);
    assert_eq!(decoder.decode(&mut buf), Ok(None));
}

#[test]
fn what_is_sent_is_received_however_it_is_cut() {
    let messages: Vec<Vec<u8>> = (0..20usize).map(|i| vec![i as u8; i * i]).collect();
    let mut sent = BytesMut::new();
    for message in &messages {
        assert_eq!(encode_sync_msg(message.clone(), &mut sent), Ok(()));
    }
    for size in [1usize, 3, 4, 5, 100, 10_000] {
        let mut decoder = FrameDecoder::new();
        let mut codec = LengthDelimitedCodec::new();
        let mut ours = BytesMut::new();
        let mut theirs = BytesMut::new();
        let mut received = vec![];
        for chunk in sent.chunks(size) {
            ours.extend_from_slice(chunk);
            theirs.extend_from_slice(chunk);
            loop {
                let expected = match codec.decode(&mut theirs) {
                    Ok(expected) => expected.map(|bytes| bytes.to_vec()),
                    Err(error) => panic!("{error}"),
                };
                assert_eq!(decoder.decode(&mut ours), Ok(expected.clone()));
                assert_eq!(ours, theirs);
                match expected {
                    Some(message) => received.push(message),
                    None => break,
                }
            }
        }
        assert_eq!(received, messages);
        assert!(ours.is_empty());
    }
}
