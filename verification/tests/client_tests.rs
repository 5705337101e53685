use std::cmp::Ordering;
use wager_duel::client::{create_reply, join_reply, wait_reply, JoinReply, PlayState, PlayingError};
use wager_duel::msg::{ord_to_i8, i8_to_ord, protocol_error, ClientMessage, Error, ServerMessage, StartData};

#[test]
fn ord_sign_round_trip() {
    for ord in [Ordering::Less, Ordering::Equal, Ordering::Greater] {
        assert_eq!(i8_to_ord(ord_to_i8(ord)), Some(ord));
    }
    assert_eq!(ord_to_i8(Ordering::Less), -1);
    assert_eq!(ord_to_i8(Ordering::Equal), 0);
    assert_eq!(ord_to_i8(Ordering::Greater), 1);
    assert_eq!(i8_to_ord(2), None);
    assert_eq!(i8_to_ord(-76), None);
}

#[test]
fn create_reply_cases() {
    assert_eq!(create_reply(ServerMessage::Created(7)), Ok(7));
    assert_eq!(create_reply(ServerMessage::JoinFail), Err(protocol_error()));
    assert_eq!(create_reply(ServerMessage::JoinFail), Err(Error::Protocol));
    assert_eq!(create_reply(ServerMessage::EndOfGame), Err(Error::Protocol));
}

#[test]
fn join_reply_cases() {
    let data = StartData::new(7, 700);
    assert_eq!(join_reply(ServerMessage::Start(data)), JoinReply::Start(data));
    assert_eq!(join_reply(ServerMessage::JoinFail), JoinReply::JoinFail);
    assert_eq!(join_reply(ServerMessage::Created(1)), JoinReply::Failed(Error::Protocol));
}

#[test]
fn wait_reply_cases() {
    let data = StartData::new(7, 700);
    assert_eq!(wait_reply(ServerMessage::Start(data)), Ok(data));
    assert_eq!(wait_reply(ServerMessage::ProtocolError), Err(Error::Protocol));
}

#[test]
fn play_state_tracks_wagers_and_results() {
    let mut p = PlayState::new(StartData::new(7, 700));
    assert_eq!(p.points_left(), 700);
    assert_eq!(p.max_turns(), 7);
    assert_eq!(p.make_guess(100), ClientMessage::Move(100));
    assert_eq!(p.points_left(), 600);
    assert_eq!(p.guesses(), &vec![100]);
    assert_eq!(p.apply_result(ServerMessage::TurnResult(-1)), Ok(()));
    assert_eq!(p.results(), &vec![Ordering::Less]);
}

#[test]
fn apply_result_classifies_failures() {
    let mut p = PlayState::new(StartData::new(7, 700));
    p.make_guess(1);
    assert_eq!(
        p.apply_result(ServerMessage::ProtocolError),
        Err(PlayingError::ProtocolErrorClaim)
    );
    assert_eq!(
        p.apply_result(ServerMessage::ConnectionLost),
        Err(PlayingError::PartnerDisconnect)
    );
    assert_eq!(
        p.apply_result(ServerMessage::TurnResult(-76)),
        Err(PlayingError::IoError(Error::Protocol))
    );
    assert_eq!(
        p.apply_result(ServerMessage::JoinFail),
        Err(PlayingError::IoError(Error::Protocol))
    );
    assert!(p.results().is_empty());
    assert_eq!(p.apply_result(ServerMessage::TurnResult(1)), Ok(()));
    assert_eq!(p.results(), &vec![Ordering::Greater]);
}
