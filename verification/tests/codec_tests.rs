use wager_duel::framing::{RecvBuffer, RecvOutcome};
use wager_duel::msg::{ClientMessage, ServerMessage, StartData};
use wager_duel::wire::{decode_client, decode_server, encode_client, encode_server};

#[test]
fn send_receive() {
    let messages = [
        ServerMessage::Created(1234567),
        ServerMessage::ProtocolError,
        ServerMessage::JoinFail,
        ServerMessage::TurnResult(-76),
    ];
    let mut wire: Vec<u8> = Vec::new();
    for msg in messages.iter() {
        let mut enc = encode_server(msg);
        wire.append(&mut enc);
        wire.push(0);
    }
    let mut buf = RecvBuffer::new(2048);
    buf.fill(&wire);
    for msg in messages.iter() {
        match buf.next_server_message() {
            RecvOutcome::Msg(m) => assert_eq!(m, *msg),
            other => panic!("expected a message, got {:?}", other),
        }
    }
    assert!(matches!(buf.next_server_message(), RecvOutcome::Pending));
}

#[test]
fn client_round_trips() {
    let messages = [
        ClientMessage::Create,
        ClientMessage::Join(0),
        ClientMessage::Join(42),
        ClientMessage::Join(u32::MAX),
        ClientMessage::Move(0),
        ClientMessage::Move(700),
    ];
    for msg in messages.iter() {
        let enc = encode_client(msg);
        assert_eq!(decode_client(&enc), Some(*msg));
    }
}

#[test]
fn server_round_trips() {
    let messages = [
        ServerMessage::ConnectionLost,
        ServerMessage::ProtocolError,
        ServerMessage::ServerError,
        ServerMessage::JoinFail,
        ServerMessage::EndOfGame,
        ServerMessage::Created(0),
        ServerMessage::Created(4294967295),
        ServerMessage::Start(StartData::new(7, 700)),
        ServerMessage::TurnResult(-1),
        ServerMessage::TurnResult(0),
        ServerMessage::TurnResult(1),
        ServerMessage::TurnResult(-128),
        ServerMessage::TurnResult(127),
    ];
    for msg in messages.iter() {
        let enc = encode_server(msg);
        assert_eq!(decode_server(&enc), Some(*msg));
    }
}

#[test]
fn exact_wire_bytes() {
    assert_eq!(encode_client(&ClientMessage::Create), b"Create".to_vec());
    assert_eq!(encode_client(&ClientMessage::Join(42)), b"Join 42".to_vec());
    assert_eq!(encode_client(&ClientMessage::Move(100)), b"Move 100".to_vec());
    assert_eq!(
        encode_server(&ServerMessage::Start(StartData::new(7, 700))),
        b"Start 7 700".to_vec()
    );
    assert_eq!(encode_server(&ServerMessage::TurnResult(-1)), b"TurnResult -1".to_vec());
    assert_eq!(encode_server(&ServerMessage::EndOfGame), b"EndOfGame".to_vec());
}

#[test]
fn decode_rejects_junk() {
    assert_eq!(decode_client(b"Creat"), None);
    assert_eq!(decode_client(b"Created 5"), None);
    assert_eq!(decode_client(b"Join "), None);
    assert_eq!(decode_client(b"Join 01"), None);
    assert_eq!(decode_client(b"Join 4294967296"), None);
    assert_eq!(decode_client(b"Move 1x"), None);
    assert_eq!(decode_client(b""), None);
    assert_eq!(decode_server(b"TurnResult -0"), None);
    assert_eq!(decode_server(b"TurnResult 128"), None);
    assert_eq!(decode_server(b"TurnResult -129"), None);
    assert_eq!(decode_server(b"Start 7"), None);
    assert_eq!(decode_server(b"Start 7 700 "), None);
    assert_eq!(decode_server(b"Move 5"), None);
}

#[test]
fn framing_chunked() {
    let m1 = ClientMessage::Join(42);
    let m2 = ClientMessage::Move(100);
    let mut wire = encode_client(&m1);
    wire.push(0);
    let mut e2 = encode_client(&m2);
    wire.append(&mut e2);
    wire.push(0);
    for chunk_len in 1..=wire.len() {
        let mut buf = RecvBuffer::new(64);
        let mut got: Vec<ClientMessage> = Vec::new();
        for chunk in wire.chunks(chunk_len) {
            buf.fill(chunk);
            loop {
                match buf.next_client_message() {
                    RecvOutcome::Msg(m) => got.push(m),
                    RecvOutcome::Pending => break,
                    other => panic!("unexpected {:?}", other),
                }
            }
        }
        assert_eq!(got, vec![m1, m2]);
    }
}

#[test]
fn buffer_overflow_without_separator() {
    let mut buf = RecvBuffer::new(4);
    buf.fill(&[65, 65, 65, 65]);
    assert!(matches!(buf.next_client_message(), RecvOutcome::Overflow));
}

#[test]
fn malformed_frame() {
    let mut buf = RecvBuffer::new(64);
    buf.fill(&[66, 97, 100, 0]);
    assert!(matches!(buf.next_client_message(), RecvOutcome::Malformed));
    assert!(matches!(buf.next_client_message(), RecvOutcome::Pending));
}
