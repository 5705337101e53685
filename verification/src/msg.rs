//! The wire message vocabulary shared by the server and the client.

use vstd::prelude::*;

verus! {

/// Number of paired turns in every game.
pub const MAX_TURNS: usize = 7;

/// Points each side may spend over a whole game.
pub const TOTAL_POINTS: u32 = 700;

/// Messages a client sends to the server.
#[derive(PartialEq, Eq, Structural, Clone, Copy, Debug)]
pub enum ClientMessage {
    /// Open a new game and wait for a partner.
    Create,
    /// Join the open game with this code.
    Join(u32),
    /// Submit a wager for the next turn.
    Move(u32),
}

/// Fixed game parameters announced by `ServerMessage::Start`.
#[derive(PartialEq, Eq, Structural, Clone, Copy, Debug)]
pub struct StartData {
    pub number_turns: u32,
    pub total_points: u32,
}

impl StartData {
    pub fn new(turns: u32, points: u32) -> (r: Self)
        ensures
            r.number_turns == turns,
            r.total_points == points,
    {
        StartData { number_turns: turns, total_points: points }
    }
}

/// Messages the server sends to a client.
#[derive(PartialEq, Eq, Structural, Clone, Copy, Debug)]
pub enum ServerMessage {
    /// The partner disconnected mid-game.
    ConnectionLost,
    /// The last client message was invalid for the current state.
    ProtocolError,
    /// Reserved for internal server failure.
    ServerError,
    /// A game was opened under this join code.
    Created(u32),
    /// No open game has the requested code.
    JoinFail,
    /// Two clients were paired; the game begins.
    Start(StartData),
    /// Sign of `opponent wager - own wager` for one finished turn.
    TurnResult(i8),
    /// All turns have been played.
    EndOfGame,
}

/// Errors the client-side library reports.
#[derive(PartialEq, Eq, Structural, Clone, Copy, Debug)]
pub enum Error {
    /// The peer sent a message that is invalid in the current state.
    Protocol,
    /// A frame did not decode to a known message.
    Decode,
    /// A frame outgrew the receive buffer.
    BufferFull,
    /// The transport failed.
    Io,
}

/// The error a session reports for an unexpected peer message.
pub fn protocol_error() -> (r: Error)
    ensures
        r == Error::Protocol,
{
    Error::Protocol
}

/// What an `Ordering` comparison result looks like on the wire.
pub open spec fn ord_sign(o: core::cmp::Ordering) -> i8 {
    match o {
        core::cmp::Ordering::Less => -1i8,
        core::cmp::Ordering::Equal => 0i8,
        core::cmp::Ordering::Greater => 1i8,
    }
}

/// Encodes a comparison result as the wire sign carried by `TurnResult`.
pub fn ord_to_i8(o: core::cmp::Ordering) -> (r: i8)
    ensures
        r == ord_sign(o),
{
    match o {
        core::cmp::Ordering::Less => -1,
        core::cmp::Ordering::Equal => 0,
        core::cmp::Ordering::Greater => 1,
    }
}

/// Decodes a wire sign back into a comparison result; `None` for any
/// value outside `{-1, 0, 1}`.
pub fn i8_to_ord(o: i8) -> (r: Option<core::cmp::Ordering>)
    ensures
        r matches Some(ord) ==> o == ord_sign(ord),
        r is Some <==> (o == -1 || o == 0 || o == 1),
{
    if o == -1 {
        Some(core::cmp::Ordering::Less)
    } else if o == 0 {
        Some(core::cmp::Ordering::Equal)
    } else if o == 1 {
        Some(core::cmp::Ordering::Greater)
    } else {
        None
    }
}

} // verus!
