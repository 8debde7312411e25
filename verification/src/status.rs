//! The states and the errors that the client and its channels report.

use vstd::prelude::*;
use crate::json::{Json, JsonView};

verus! {

/// A handle by which the host knows one of its callbacks. The library hands
/// it back with what the callback is to receive and never looks into it.
pub type CallbackId = u64;

/// Where the connection to the realtime server stands.
#[derive(Clone, Copy, Debug, PartialEq, Eq, Structural)]
pub enum ConnectionState {
    Closed,
    Connecting,
    Open,
    Reconnecting,
    Closing,
}

impl Default for ConnectionState {
    fn default() -> (out: ConnectionState)
        ensures
            out == ConnectionState::Closed,
    {
        ConnectionState::Closed
    }
}

/// Where a channel stands.
#[derive(Clone, Copy, Debug, PartialEq, Eq, Structural)]
pub enum ChannelState {
    Closed,
    Joining,
    Joined,
    Leaving,
    Errored,
}

/// Why a connection could not be made.
#[derive(Clone, Copy, Debug, PartialEq, Eq, Structural)]
pub enum ConnectError {
    /// The server could not be reached.
    Unreachable,
    /// The server was reached and the handshake failed.
    HandshakeFailed,
    /// The server refused the credentials. The client does not try again.
    AuthRejected,
}

/// Why a step of the client brought no message.
#[derive(Clone, Copy, Debug, PartialEq, Eq, Structural)]
pub enum NextMessageError {
    /// Nothing is there to read yet.
    WouldBlock,
    /// The socket has ended.
    Closed,
    /// A frame could not be understood and was dropped.
    Malformed,
}

/// What went wrong on one channel.
#[derive(Debug, PartialEq, Eq)]
pub enum ChannelError {
    /// The server refused the join, with what it said.
    JoinRejected(Json),
    /// No reply came in time.
    RequestTimeout,
}

/// The mathematical value of a [`ChannelError`].
pub enum ChannelErrorView {
    JoinRejected(JsonView),
    RequestTimeout,
}

impl View for ChannelError {
    type V = ChannelErrorView;

    open spec fn view(&self) -> ChannelErrorView {
        match self {
            ChannelError::JoinRejected(payload) => ChannelErrorView::JoinRejected(payload@),
            ChannelError::RequestTimeout => ChannelErrorView::RequestTimeout,
        }
    }
}

impl Clone for ChannelError {
    fn clone(&self) -> (out: ChannelError)
        ensures
            out@ == self@,
    {
        match self {
            ChannelError::JoinRejected(payload) => ChannelError::JoinRejected(payload.clone()),
            ChannelError::RequestTimeout => ChannelError::RequestTimeout,
        }
    }
}

/// Why a request on a channel was not made.
#[derive(Clone, Copy, Debug, PartialEq, Eq, Structural)]
pub enum RequestError {
    /// The channel is in a state in which the request cannot be made; the
    /// state comes with it.
    InvalidState(ChannelState),
    /// No reference is left to give to the request.
    RefsExhausted,
    /// The client has no channel under the handle.
    UnknownChannel,
    /// The connection is not open.
    NotConnected,
    /// A channel of the client that is not closed has the topic already.
    DuplicateTopic,
}

} // verus!
