use wager_duel::msg::{ClientMessage, ServerMessage, StartData};
use wager_duel::server::{Directive, Followup, ServerState, SlotState, MAX_CONNECTIONS};

fn pair_up(s: &mut ServerState) -> (usize, usize, u32) {
    let a = s.accept().expect("accept creator");
    let b = s.accept().expect("accept joiner");
    let d = s.handle_message(a, ClientMessage::Create);
    assert_eq!(d.sends.len(), 1);
    assert_eq!(d.sends[0].to, a);
    let code = match d.sends[0].msg {
        ServerMessage::Created(c) => c,
        other => panic!("expected Created, got {:?}", other),
    };
    let d = s.handle_message(b, ClientMessage::Join(code));
    match d.next {
        Followup::AwaitCreatorStart { joiner, creator, send } => {
            assert_eq!((joiner, creator), (b, a));
            assert_eq!(send.to, a);
            assert_eq!(send.msg, ServerMessage::Start(StartData::new(7, 700)));
        }
        other => panic!("expected creator follow-up, got {:?}", other),
    }
    let d = s.pairing_creator_sent(b, a, true);
    match d.next {
        Followup::AwaitJoinerStart { joiner, creator, send } => {
            assert_eq!((joiner, creator), (b, a));
            assert_eq!(send.to, b);
            assert_eq!(send.msg, ServerMessage::Start(StartData::new(7, 700)));
        }
        other => panic!("expected joiner follow-up, got {:?}", other),
    }
    let d = s.pairing_joiner_sent(b, a, true);
    assert!(d.sends.is_empty() && d.closes.is_empty() && d.notices.is_empty());
    (a, b, code)
}

fn assert_quiet(d: &Directive) {
    assert!(d.sends.is_empty());
    assert!(d.closes.is_empty());
    assert!(d.notices.is_empty());
    assert!(matches!(d.next, Followup::Done));
}

#[test]
fn happy_path() {
    let mut s = ServerState::new();
    let (a, b, _) = pair_up(&mut s);
    for turn in 0..7u32 {
        // The creator (lower slot, side 0) moves first: nothing is sent yet.
        let d = s.handle_message(a, ClientMessage::Move(50 + turn));
        assert_quiet(&d);
        // The joiner completes the turn: results go out, lower slot first.
        let d = s.handle_message(b, ClientMessage::Move(40));
        assert_eq!(d.sends[0].to, a);
        assert_eq!(d.sends[0].msg, ServerMessage::TurnResult(-1));
        assert_eq!(d.sends[1].to, b);
        assert_eq!(d.sends[1].msg, ServerMessage::TurnResult(1));
        if turn == 6 {
            // The last turn also ends the game for both sides, results first.
            assert_eq!(d.sends.len(), 4);
            assert_eq!(d.sends[2].to, a);
            assert_eq!(d.sends[2].msg, ServerMessage::EndOfGame);
            assert_eq!(d.sends[3].to, b);
            assert_eq!(d.sends[3].msg, ServerMessage::EndOfGame);
        } else {
            assert_eq!(d.sends.len(), 2);
        }
    }
    // Both slots are Idle again: each may open a new game.
    assert_eq!(s.slot_state(a), SlotState::Idle);
    assert_eq!(s.slot_state(b), SlotState::Idle);
    let d = s.handle_message(a, ClientMessage::Create);
    assert!(matches!(d.sends[0].msg, ServerMessage::Created(_)));
    let d = s.handle_message(b, ClientMessage::Create);
    assert!(matches!(d.sends[0].msg, ServerMessage::Created(_)));
}

#[test]
fn join_fail_then_create() {
    let mut s = ServerState::new();
    let a = s.accept().expect("accept");
    let d = s.handle_message(a, ClientMessage::Join(999));
    assert_eq!(d.sends.len(), 1);
    assert_eq!(d.sends[0].to, a);
    assert_eq!(d.sends[0].msg, ServerMessage::JoinFail);
    assert!(d.closes.is_empty());
    let d = s.handle_message(a, ClientMessage::Create);
    assert!(matches!(d.sends[0].msg, ServerMessage::Created(_)));
}

#[test]
fn move_while_idle_is_protocol_error() {
    let mut s = ServerState::new();
    let a = s.accept().expect("accept");
    let d = s.handle_message(a, ClientMessage::Move(10));
    assert_eq!(d.notices.len(), 1);
    assert_eq!(d.notices[0].to, a);
    assert_eq!(d.notices[0].msg, ServerMessage::ProtocolError);
    assert_eq!(d.closes, vec![a]);
    assert_eq!(s.slot_state(a), SlotState::Vacant);
}

#[test]
fn message_while_waiting_is_protocol_error() {
    let mut s = ServerState::new();
    let a = s.accept().expect("accept");
    let d = s.handle_message(a, ClientMessage::Create);
    assert!(matches!(d.sends[0].msg, ServerMessage::Created(_)));
    let d = s.handle_message(a, ClientMessage::Create);
    assert_eq!(d.notices[0].msg, ServerMessage::ProtocolError);
    assert_eq!(d.closes, vec![a]);
}

#[test]
fn overspend_closes_offender_and_idles_partner() {
    let mut s = ServerState::new();
    let (a, b, _) = pair_up(&mut s);
    let d = s.handle_message(a, ClientMessage::Move(701));
    assert_eq!(d.notices.len(), 2);
    assert_eq!(d.notices[0].to, a);
    assert_eq!(d.notices[0].msg, ServerMessage::ProtocolError);
    assert_eq!(d.notices[1].to, b);
    assert_eq!(d.notices[1].msg, ServerMessage::ConnectionLost);
    assert_eq!(d.closes, vec![a]);
    // The partner is Idle again and may open a game of its own.
    let d = s.handle_message(b, ClientMessage::Create);
    assert!(matches!(d.sends[0].msg, ServerMessage::Created(_)));
}

#[test]
fn disconnect_mid_game_notifies_partner() {
    let mut s = ServerState::new();
    let (a, b, _) = pair_up(&mut s);
    let d = s.remove(a);
    assert_eq!(d.closes, vec![a]);
    assert_eq!(d.notices.len(), 1);
    assert_eq!(d.notices[0].to, b);
    assert_eq!(d.notices[0].msg, ServerMessage::ConnectionLost);
    // The survivor returns to Idle; the closed slot is vacant.
    assert_eq!(s.slot_state(b), SlotState::Idle);
    assert_eq!(s.slot_state(a), SlotState::Vacant);
    let d = s.handle_message(b, ClientMessage::Create);
    assert!(matches!(d.sends[0].msg, ServerMessage::Created(_)));
}

#[test]
fn disconnect_of_waiting_creator_frees_its_code() {
    let mut s = ServerState::new();
    let a = s.accept().expect("accept");
    let b = s.accept().expect("accept");
    let d = s.handle_message(a, ClientMessage::Create);
    let code = match d.sends[0].msg {
        ServerMessage::Created(c) => c,
        other => panic!("expected Created, got {:?}", other),
    };
    s.remove(a);
    let d = s.handle_message(b, ClientMessage::Join(code));
    assert_eq!(d.sends[0].msg, ServerMessage::JoinFail);
}

#[test]
fn creator_start_failure_sends_join_fail() {
    let mut s = ServerState::new();
    let a = s.accept().expect("accept");
    let b = s.accept().expect("accept");
    let d = s.handle_message(a, ClientMessage::Create);
    let code = match d.sends[0].msg {
        ServerMessage::Created(c) => c,
        other => panic!("expected Created, got {:?}", other),
    };
    s.handle_message(b, ClientMessage::Join(code));
    let d = s.pairing_creator_sent(b, a, false);
    assert_eq!(d.closes, vec![a]);
    assert_eq!(d.sends.len(), 1);
    assert_eq!(d.sends[0].to, b);
    assert_eq!(d.sends[0].msg, ServerMessage::JoinFail);
    // The joiner may still retry.
    let d = s.handle_message(b, ClientMessage::Create);
    assert!(matches!(d.sends[0].msg, ServerMessage::Created(_)));
}

#[test]
fn joiner_start_failure_keeps_creator_waiting() {
    let mut s = ServerState::new();
    let a = s.accept().expect("accept");
    let b = s.accept().expect("accept");
    let d = s.handle_message(a, ClientMessage::Create);
    let code = match d.sends[0].msg {
        ServerMessage::Created(c) => c,
        other => panic!("expected Created, got {:?}", other),
    };
    s.handle_message(b, ClientMessage::Join(code));
    s.pairing_creator_sent(b, a, true);
    let d = s.pairing_joiner_sent(b, a, false);
    // Only the joiner is closed; the creator keeps its slot and is told
    // ConnectionLost best-effort.
    assert_eq!(d.closes, vec![b]);
    assert_eq!(d.notices.len(), 1);
    assert_eq!(d.notices[0].to, a);
    assert_eq!(d.notices[0].msg, ServerMessage::ConnectionLost);
    assert!(d.sends.is_empty());
    assert_eq!(s.slot_state(a), SlotState::Waiting(code));
    assert_eq!(s.slot_state(b), SlotState::Vacant);
    // The game is still open, so a later client can join it.
    let c = s.accept().expect("accept");
    let d = s.handle_message(c, ClientMessage::Join(code));
    assert!(matches!(d.next, Followup::AwaitCreatorStart { .. }));
}

#[test]
fn apply_code_is_exact_per_code() {
    let mut s = ServerState::new();
    let a = s.accept().expect("accept");
    let d = s.apply_code(a, 42).expect("fresh code opens the game");
    assert_eq!(d.sends.len(), 1);
    assert_eq!(d.sends[0].to, a);
    assert_eq!(d.sends[0].msg, ServerMessage::Created(42));
    assert_eq!(s.slot_state(a), SlotState::Waiting(42));
    // A colliding code is refused and changes nothing; the next fresh code
    // succeeds.
    let b = s.accept().expect("accept");
    assert!(s.apply_code(b, 42).is_none());
    assert_eq!(s.slot_state(b), SlotState::Idle);
    let d = s.apply_code(b, 43).expect("fresh code");
    assert_eq!(d.sends[0].msg, ServerMessage::Created(43));
    assert_eq!(s.slot_state(b), SlotState::Waiting(43));
}

#[test]
fn full_server_refuses_connections() {
    let mut s = ServerState::new();
    let mut slots = Vec::new();
    for _ in 0..MAX_CONNECTIONS {
        slots.push(s.accept().expect("room left"));
    }
    assert_eq!(s.accept(), None);
    // Existing sessions are unaffected: the first slot still answers.
    let d = s.handle_message(slots[0], ClientMessage::Create);
    assert!(matches!(d.sends[0].msg, ServerMessage::Created(_)));
    // A departure frees exactly one slot, which is reused.
    s.remove(slots[5]);
    assert_eq!(s.accept(), Some(slots[5]));
    assert_eq!(s.accept(), None);
}
