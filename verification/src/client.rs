//! The client's side of the session protocol: the play state that mirrors
//! the server's game bookkeeping, and the interpretation of each server
//! reply, one function per phase.

use vstd::prelude::*;
use crate::msg::{ClientMessage, Error, ServerMessage, StartData};

verus! {

/// What can go wrong while playing, kept apart because each case calls for
/// a different recovery: the server's two notices, and real transport or
/// decode failures.
#[derive(Debug, Clone, Copy, PartialEq, Eq, Structural)]
pub enum PlayingError {
    /// The server claims our last message broke protocol.
    ProtocolErrorClaim,
    /// The partner disconnected mid-game.
    PartnerDisconnect,
    /// The transport failed or the reply was not understood.
    IoError(Error),
}

/// How an idle client must read the reply to `Create`: the game's code, or
/// a protocol error for anything but `Created`.
pub fn create_reply(msg: ServerMessage) -> (r: Result<u32, Error>)
    ensures
        (msg matches ServerMessage::Created(id) ==> r == Ok::<u32, Error>(id)),
        (!(msg is Created) ==> r == Err::<u32, Error>(Error::Protocol)),
{
    match msg {
        ServerMessage::Created(id) => Ok(id),
        _ => Err(Error::Protocol),
    }
}

/// How a joining client must read the reply to `Join`.
#[derive(Debug, Clone, Copy, PartialEq, Eq, Structural)]
pub enum JoinReply {
    /// The game starts with these parameters.
    Start(StartData),
    /// No such open game; the client may retry with another code.
    JoinFail,
    /// Anything else is a protocol error.
    Failed(Error),
}

pub fn join_reply(msg: ServerMessage) -> (r: JoinReply)
    ensures
        (msg matches ServerMessage::Start(data) ==> r == JoinReply::Start(data)),
        (msg is JoinFail ==> r == JoinReply::JoinFail),
        (!(msg is Start) && !(msg is JoinFail) ==> r == JoinReply::Failed(Error::Protocol)),
{
    match msg {
        ServerMessage::Start(data) => JoinReply::Start(data),
        ServerMessage::JoinFail => JoinReply::JoinFail,
        _ => JoinReply::Failed(Error::Protocol),
    }
}

/// How a waiting creator must read the message that ends its wait: only
/// `Start` is expected.
pub fn wait_reply(msg: ServerMessage) -> (r: Result<StartData, Error>)
    ensures
        (msg matches ServerMessage::Start(data) ==> r == Ok::<StartData, Error>(data)),
        (!(msg is Start) ==> r == Err::<StartData, Error>(Error::Protocol)),
{
    match msg {
        ServerMessage::Start(data) => Ok(data),
        _ => Err(Error::Protocol),
    }
}

/// The client's bookkeeping for a running game: wagers made, results seen,
/// points left, all bounded by the parameters the server announced.
pub struct PlayState {
    left: u32,
    max_len: usize,
    guesses: Vec<u32>,
    results: Vec<core::cmp::Ordering>,
}

impl PlayState {
    pub closed spec fn spec_left(self) -> u32 {
        self.left
    }

    pub closed spec fn spec_max_turns(self) -> nat {
        self.max_len as nat
    }

    pub closed spec fn spec_guesses(self) -> Seq<u32> {
        self.guesses@
    }

    pub closed spec fn spec_results(self) -> Seq<core::cmp::Ordering> {
        self.results@
    }

    /// Results never outrun wagers, and wagers never outrun the turn count.
    pub open spec fn wf(self) -> bool {
        self.spec_results().len() <= self.spec_guesses().len() <= self.spec_max_turns()
    }

    pub fn new(data: StartData) -> (s: PlayState)
        ensures
            s.wf(),
            s.spec_left() == data.total_points,
            s.spec_max_turns() == data.number_turns,
            s.spec_guesses() == Seq::<u32>::empty(),
            s.spec_results() == Seq::<core::cmp::Ordering>::empty(),
    {
        PlayState {
            left: data.total_points,
            max_len: data.number_turns as usize,
            guesses: Vec::new(),
            results: Vec::new(),
        }
    }

    /// Records a wager and hands back the message to send.  The caller must
    /// stay within its turns and points; a caller that cannot prove that
    /// checks first, as the protocol would reject the move anyway.
    pub fn make_guess(&mut self, n: u32) -> (m: ClientMessage)
        requires
            old(self).wf(),
            old(self).spec_guesses().len() < old(self).spec_max_turns(),
            n <= old(self).spec_left(),
        ensures
            final(self).wf(),
            m == ClientMessage::Move(n),
            final(self).spec_guesses() == old(self).spec_guesses().push(n),
            final(self).spec_left() == old(self).spec_left() - n,
            final(self).spec_results() == old(self).spec_results(),
            final(self).spec_max_turns() == old(self).spec_max_turns(),
    {
        self.guesses.push(n);
        self.left = self.left - n;
        ClientMessage::Move(n)
    }

    /// Interprets one server message while a result is owed: a `TurnResult`
    /// in range is recorded, the server's two notices map to their own
    /// errors, and anything else is a protocol error.
    pub fn apply_result(&mut self, msg: ServerMessage) -> (r: Result<(), PlayingError>)
        requires
            old(self).wf(),
            old(self).spec_results().len() < old(self).spec_guesses().len(),
        ensures
            final(self).wf(),
            final(self).spec_guesses() == old(self).spec_guesses(),
            final(self).spec_left() == old(self).spec_left(),
            final(self).spec_max_turns() == old(self).spec_max_turns(),
            (r is Ok <==> exists|v: i8|
                msg == ServerMessage::TurnResult(v) && (v == -1 || v == 0 || v == 1)),
            (r is Ok ==> exists|o: core::cmp::Ordering|
                final(self).spec_results() == old(self).spec_results().push(o) && msg
                    == ServerMessage::TurnResult(crate::msg::ord_sign(o))),
            (!(r is Ok) ==> final(self).spec_results() == old(self).spec_results()),
            (msg is ProtocolError ==> r == Err::<(), PlayingError>(
                PlayingError::ProtocolErrorClaim,
            )),
            (msg is ConnectionLost ==> r == Err::<(), PlayingError>(
                PlayingError::PartnerDisconnect,
            )),
            ((!(msg is TurnResult) && !(msg is ProtocolError) && !(msg is ConnectionLost)) ==> r
                == Err::<(), PlayingError>(PlayingError::IoError(Error::Protocol))),
    {
        match msg {
            ServerMessage::TurnResult(v) => match crate::msg::i8_to_ord(v) {
                Some(o) => {
                    self.results.push(o);
                    proof {
                        assert(msg == ServerMessage::TurnResult(crate::msg::ord_sign(o)));
                    }
                    Ok(())
                },
                None => Err(PlayingError::IoError(Error::Protocol)),
            },
            ServerMessage::ProtocolError => Err(PlayingError::ProtocolErrorClaim),
            ServerMessage::ConnectionLost => Err(PlayingError::PartnerDisconnect),
            _ => Err(PlayingError::IoError(Error::Protocol)),
        }
    }

    pub fn points_left(&self) -> (r: u32)
        ensures
            r == self.spec_left(),
    {
        self.left
    }

    pub fn max_turns(&self) -> (r: usize)
        ensures
            r == self.spec_max_turns(),
    {
        self.max_len
    }

    pub fn guesses(&self) -> (r: &Vec<u32>)
        ensures
            r@ == self.spec_guesses(),
    {
        &self.guesses
    }

    pub fn results(&self) -> (r: &Vec<core::cmp::Ordering>)
        ensures
            r@ == self.spec_results(),
    {
        &self.results
    }
}

} // verus!
