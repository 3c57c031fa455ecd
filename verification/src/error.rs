//! How a synchronisation fails.

use vstd::prelude::*;

use crate::message::SyncRejection;

verus! {

/// A synchronisation failed.
#[derive(Debug, PartialEq, Eq)]
pub enum SyncError {
    /// Something could not be sent.
    Send(SyncSendError),
    /// Something could not be received.
    Recv(SyncRecvError),
    /// The peer refused.
    Rejection(SyncRejection),
    /// No stream to the peer could be opened; the text says why.
    Transport(String),
}

/// Something could not be sent. A `String` is the text of the error underneath.
#[derive(Debug, PartialEq, Eq)]
pub enum SyncSendError {
    Io(String),
    Write(String),
    Rusqlite(String),
    NoMoreColumns,
    MissingColumn(String),
    WrongColumn(String, String),
    UnexpectedColumn(String),
    UnknownResourceState,
    UnknownResourceType,
    WrongIpByteLength(usize),
    Encode(String),
    ChannelClosed,
}

/// Something could not be received. A `String` is the text of the error
/// underneath.
#[derive(Debug, PartialEq, Eq)]
pub enum SyncRecvError {
    Decode(String),
    Io(String),
    TimedOut,
    ExpectedSyncState,
    ExpectedClockMessage,
    UnexpectedEndOfStream,
    ChangesChannelClosed,
    RequestsChannelClosed,
}

} // verus!
