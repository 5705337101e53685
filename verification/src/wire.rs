//! Message-level encoding: each message is its tag name, followed for the
//! variants with data by a space-separated decimal payload.
//!
//! Decoding accepts exactly the canonical encodings, so a decoder composed
//! with the matching encoder is the identity on messages.

use vstd::prelude::*;
use crate::codec::{
    dec_digits, i8_dec, is_digit, lemma_concat_cancel, lemma_dec_digits_ok,
    lemma_split_unique, parse_i8_range, parse_u32_range, push_i8, push_u32,
};
use crate::msg::{ClientMessage, ServerMessage, StartData};

verus! {

pub open spec fn tag_create() -> Seq<u8> {
    seq![67u8, 114u8, 101u8, 97u8, 116u8, 101u8]
}

pub open spec fn tag_join() -> Seq<u8> {
    seq![74u8, 111u8, 105u8, 110u8]
}

pub open spec fn tag_move() -> Seq<u8> {
    seq![77u8, 111u8, 118u8, 101u8]
}

pub open spec fn tag_connection_lost() -> Seq<u8> {
    seq![67u8, 111u8, 110u8, 110u8, 101u8, 99u8, 116u8, 105u8, 111u8, 110u8, 76u8, 111u8, 115u8,
        116u8]
}

pub open spec fn tag_protocol_error() -> Seq<u8> {
    seq![80u8, 114u8, 111u8, 116u8, 111u8, 99u8, 111u8, 108u8, 69u8, 114u8, 114u8, 111u8, 114u8]
}

pub open spec fn tag_server_error() -> Seq<u8> {
    seq![83u8, 101u8, 114u8, 118u8, 101u8, 114u8, 69u8, 114u8, 114u8, 111u8, 114u8]
}

pub open spec fn tag_created() -> Seq<u8> {
    seq![67u8, 114u8, 101u8, 97u8, 116u8, 101u8, 100u8]
}

pub open spec fn tag_join_fail() -> Seq<u8> {
    seq![74u8, 111u8, 105u8, 110u8, 70u8, 97u8, 105u8, 108u8]
}

pub open spec fn tag_start() -> Seq<u8> {
    seq![83u8, 116u8, 97u8, 114u8, 116u8]
}

pub open spec fn tag_turn_result() -> Seq<u8> {
    seq![84u8, 117u8, 114u8, 110u8, 82u8, 101u8, 115u8, 117u8, 108u8, 116u8]
}

pub open spec fn tag_end_of_game() -> Seq<u8> {
    seq![69u8, 110u8, 100u8, 79u8, 102u8, 71u8, 97u8, 109u8, 101u8]
}

/// The encoding of a client message.
pub open spec fn enc_client(m: ClientMessage) -> Seq<u8> {
    match m {
        ClientMessage::Create => tag_create(),
        ClientMessage::Join(n) => tag_join() + seq![32u8] + dec_digits(n as nat),
        ClientMessage::Move(n) => tag_move() + seq![32u8] + dec_digits(n as nat),
    }
}

/// The encoding of a server message.
pub open spec fn enc_server(m: ServerMessage) -> Seq<u8> {
    match m {
        ServerMessage::ConnectionLost => tag_connection_lost(),
        ServerMessage::ProtocolError => tag_protocol_error(),
        ServerMessage::ServerError => tag_server_error(),
        ServerMessage::Created(n) => tag_created() + seq![32u8] + dec_digits(n as nat),
        ServerMessage::JoinFail => tag_join_fail(),
        ServerMessage::Start(d) => tag_start() + seq![32u8] + (dec_digits(d.number_turns as nat)
            + seq![32u8] + dec_digits(d.total_points as nat)),
        ServerMessage::TurnResult(v) => tag_turn_result() + seq![32u8] + i8_dec(v as int),
        ServerMessage::EndOfGame => tag_end_of_game(),
    }
}

/// No byte of `s` is the zero byte that frames messages on the wire.
pub open spec fn zero_free(s: Seq<u8>) -> bool {
    forall|i: int| 0 <= i < s.len() ==> #[trigger] s[i] != 0
}

proof fn lemma_zero_free_concat(a: Seq<u8>, b: Seq<u8>)
    requires
        zero_free(a),
        zero_free(b),
    ensures
        zero_free(a + b),
{
    assert forall|i: int| 0 <= i < (a + b).len() implies (a + b)[i] != 0 by {
        if i < a.len() {
            assert((a + b)[i] == a[i]);
        } else {
            assert((a + b)[i] == b[i - a.len()]);
        }
    }
}

proof fn lemma_digits_zero_free(n: nat)
    ensures
        zero_free(dec_digits(n)),
{
    lemma_dec_digits_ok(n);
    assert forall|i: int| 0 <= i < dec_digits(n).len() implies dec_digits(n)[i] != 0 by {
        assert(is_digit(dec_digits(n)[i]));
    }
}

proof fn lemma_i8_zero_free(v: int)
    requires
        -128 <= v <= 127,
    ensures
        zero_free(i8_dec(v)),
{
    if v < 0 {
        lemma_digits_zero_free((-v) as nat);
        lemma_zero_free_concat(seq![45u8], dec_digits((-v) as nat));
    } else {
        lemma_digits_zero_free(v as nat);
    }
}

/// The framing byte never occurs inside an encoded client message.
pub proof fn lemma_enc_client_zero_free(m: ClientMessage)
    ensures
        zero_free(enc_client(m)),
{
    match m {
        ClientMessage::Create => {
        },
        ClientMessage::Join(n) => {
            lemma_digits_zero_free(n as nat);
            lemma_zero_free_concat(tag_join() + seq![32u8], dec_digits(n as nat));
            lemma_zero_free_concat(tag_join(), seq![32u8]);
        },
        ClientMessage::Move(n) => {
            lemma_digits_zero_free(n as nat);
            lemma_zero_free_concat(tag_move() + seq![32u8], dec_digits(n as nat));
            lemma_zero_free_concat(tag_move(), seq![32u8]);
        },
    }
}

/// The framing byte never occurs inside an encoded server message.
pub proof fn lemma_enc_server_zero_free(m: ServerMessage)
    ensures
        zero_free(enc_server(m)),
{
    match m {
        ServerMessage::ConnectionLost => {
        },
        ServerMessage::ProtocolError => {
        },
        ServerMessage::ServerError => {
        },
        ServerMessage::JoinFail => {
        },
        ServerMessage::EndOfGame => {
        },
        ServerMessage::Created(n) => {
            lemma_digits_zero_free(n as nat);
            lemma_zero_free_concat(tag_created(), seq![32u8]);
            lemma_zero_free_concat(tag_created() + seq![32u8], dec_digits(n as nat));
        },
        ServerMessage::Start(d) => {
            lemma_digits_zero_free(d.number_turns as nat);
            lemma_digits_zero_free(d.total_points as nat);
            lemma_zero_free_concat(dec_digits(d.number_turns as nat), seq![32u8]);
            lemma_zero_free_concat(
                dec_digits(d.number_turns as nat) + seq![32u8],
                dec_digits(d.total_points as nat),
            );
            lemma_zero_free_concat(tag_start(), seq![32u8]);
            lemma_zero_free_concat(
                tag_start() + seq![32u8],
                dec_digits(d.number_turns as nat) + seq![32u8] + dec_digits(d.total_points as nat),
            );
        },
        ServerMessage::TurnResult(v) => {
            lemma_i8_zero_free(v as int);
            lemma_zero_free_concat(tag_turn_result(), seq![32u8]);
            lemma_zero_free_concat(tag_turn_result() + seq![32u8], i8_dec(v as int));
        },
    }
}

proof fn lemma_i8_dec_injective(a: int, b: int)
    requires
        -128 <= a <= 127,
        -128 <= b <= 127,
        i8_dec(a) == i8_dec(b),
    ensures
        a == b,
{
    if a < 0 && b < 0 {
        lemma_concat_cancel(seq![45u8], dec_digits((-a) as nat), dec_digits((-b) as nat));
        lemma_dec_digits_ok((-a) as nat);
        lemma_dec_digits_ok((-b) as nat);
    } else if a >= 0 && b >= 0 {
        lemma_dec_digits_ok(a as nat);
        lemma_dec_digits_ok(b as nat);
    } else if a < 0 {
        lemma_dec_digits_ok(b as nat);
        assert(i8_dec(a)[0] == 45);
        assert(is_digit(i8_dec(b)[0]));
        assert(false);
    } else {
        lemma_dec_digits_ok(a as nat);
        assert(i8_dec(b)[0] == 45);
        assert(is_digit(i8_dec(a)[0]));
        assert(false);
    }
}

/// The first byte of an encoded client message identifies its variant.
proof fn lemma_enc_client_head(m: ClientMessage)
    ensures
        enc_client(m).len() >= 4,
        m is Create ==> enc_client(m)[0] == 67,
        m is Join ==> enc_client(m)[0] == 74,
        m is Move ==> enc_client(m)[0] == 77,
{
    match m {
        ClientMessage::Create => {
        },
        ClientMessage::Join(n) => {
            assert(enc_client(m)[0] == (tag_join() + seq![32u8])[0]);
            assert((tag_join() + seq![32u8])[0] == tag_join()[0]);
        },
        ClientMessage::Move(n) => {
            assert(enc_client(m)[0] == (tag_move() + seq![32u8])[0]);
            assert((tag_move() + seq![32u8])[0] == tag_move()[0]);
        },
    }
}

/// The first two bytes of an encoded server message identify its variant.
proof fn lemma_enc_server_head(m: ServerMessage)
    ensures
        enc_server(m).len() >= 2,
        m is ConnectionLost ==> enc_server(m)[0] == 67 && enc_server(m)[1] == 111,
        m is ProtocolError ==> enc_server(m)[0] == 80 && enc_server(m)[1] == 114,
        m is ServerError ==> enc_server(m)[0] == 83 && enc_server(m)[1] == 101,
        m is Created ==> enc_server(m)[0] == 67 && enc_server(m)[1] == 114,
        m is JoinFail ==> enc_server(m)[0] == 74 && enc_server(m)[1] == 111,
        m is Start ==> enc_server(m)[0] == 83 && enc_server(m)[1] == 116,
        m is TurnResult ==> enc_server(m)[0] == 84 && enc_server(m)[1] == 117,
        m is EndOfGame ==> enc_server(m)[0] == 69 && enc_server(m)[1] == 110,
{
    match m {
        ServerMessage::Created(n) => {
            assert(enc_server(m)[0] == (tag_created() + seq![32u8])[0]);
            assert(enc_server(m)[1] == (tag_created() + seq![32u8])[1]);
            assert((tag_created() + seq![32u8])[0] == tag_created()[0]);
            assert((tag_created() + seq![32u8])[1] == tag_created()[1]);
        },
        ServerMessage::Start(d) => {
            assert(enc_server(m)[0] == (tag_start() + seq![32u8])[0]);
            assert(enc_server(m)[1] == (tag_start() + seq![32u8])[1]);
            assert((tag_start() + seq![32u8])[0] == tag_start()[0]);
            assert((tag_start() + seq![32u8])[1] == tag_start()[1]);
        },
        ServerMessage::TurnResult(v) => {
            assert(enc_server(m)[0] == (tag_turn_result() + seq![32u8])[0]);
            assert(enc_server(m)[1] == (tag_turn_result() + seq![32u8])[1]);
            assert((tag_turn_result() + seq![32u8])[0] == tag_turn_result()[0]);
            assert((tag_turn_result() + seq![32u8])[1] == tag_turn_result()[1]);
        },
        _ => {
        },
    }
}

/// Distinct client messages never share an encoding.
pub proof fn lemma_enc_client_injective(m1: ClientMessage, m2: ClientMessage)
    requires
        enc_client(m1) == enc_client(m2),
    ensures
        m1 == m2,
{
    match (m1, m2) {
        (ClientMessage::Create, ClientMessage::Create) => {
        },
        (ClientMessage::Join(a), ClientMessage::Join(b)) => {
            lemma_concat_cancel(
                tag_join() + seq![32u8],
                dec_digits(a as nat),
                dec_digits(b as nat),
            );
            lemma_dec_digits_ok(a as nat);
            lemma_dec_digits_ok(b as nat);
        },
        (ClientMessage::Move(a), ClientMessage::Move(b)) => {
            lemma_concat_cancel(
                tag_move() + seq![32u8],
                dec_digits(a as nat),
                dec_digits(b as nat),
            );
            lemma_dec_digits_ok(a as nat);
            lemma_dec_digits_ok(b as nat);
        },
        _ => {
            lemma_enc_client_head(m1);
            lemma_enc_client_head(m2);
            assert(enc_client(m1)[0] == enc_client(m2)[0]);
            assert(false);
        },
    }
}

/// Distinct server messages never share an encoding.
pub proof fn lemma_enc_server_injective(m1: ServerMessage, m2: ServerMessage)
    requires
        enc_server(m1) == enc_server(m2),
    ensures
        m1 == m2,
{
    match (m1, m2) {
        (ServerMessage::Created(a), ServerMessage::Created(b)) => {
            lemma_concat_cancel(
                tag_created() + seq![32u8],
                dec_digits(a as nat),
                dec_digits(b as nat),
            );
            lemma_dec_digits_ok(a as nat);
            lemma_dec_digits_ok(b as nat);
        },
        (ServerMessage::TurnResult(a), ServerMessage::TurnResult(b)) => {
            lemma_concat_cancel(tag_turn_result() + seq![32u8], i8_dec(a as int), i8_dec(b as int));
            lemma_i8_dec_injective(a as int, b as int);
        },
        (ServerMessage::Start(d1), ServerMessage::Start(d2)) => {
            lemma_concat_cancel(
                tag_start() + seq![32u8],
                dec_digits(d1.number_turns as nat) + seq![32u8] + dec_digits(
                    d1.total_points as nat,
                ),
                dec_digits(d2.number_turns as nat) + seq![32u8] + dec_digits(
                    d2.total_points as nat,
                ),
            );
            lemma_dec_digits_ok(d1.number_turns as nat);
            lemma_dec_digits_ok(d2.number_turns as nat);
            assert forall|i: int| 0 <= i < dec_digits(d1.number_turns as nat).len() implies
                dec_digits(d1.number_turns as nat)[i] != 32 by {
                assert(is_digit(dec_digits(d1.number_turns as nat)[i]));
            }
            assert forall|i: int| 0 <= i < dec_digits(d2.number_turns as nat).len() implies
                dec_digits(d2.number_turns as nat)[i] != 32 by {
                assert(is_digit(dec_digits(d2.number_turns as nat)[i]));
            }
            lemma_split_unique(
                dec_digits(d1.number_turns as nat),
                dec_digits(d1.total_points as nat),
                dec_digits(d2.number_turns as nat),
                dec_digits(d2.total_points as nat),
                32,
            );
            lemma_dec_digits_ok(d1.total_points as nat);
            lemma_dec_digits_ok(d2.total_points as nat);
        },
        (ServerMessage::ConnectionLost, ServerMessage::ConnectionLost) => {
        },
        (ServerMessage::ProtocolError, ServerMessage::ProtocolError) => {
        },
        (ServerMessage::ServerError, ServerMessage::ServerError) => {
        },
        (ServerMessage::JoinFail, ServerMessage::JoinFail) => {
        },
        (ServerMessage::EndOfGame, ServerMessage::EndOfGame) => {
        },
        _ => {
            lemma_enc_server_head(m1);
            lemma_enc_server_head(m2);
            assert(enc_server(m1)[0] == enc_server(m2)[0]);
            assert(enc_server(m1)[1] == enc_server(m2)[1]);
            assert(false);
        },
    }
}

/// The spec-level reading of a byte string as a client message: the unique
/// message it encodes, if it encodes one.
pub open spec fn spec_decode_client(s: Seq<u8>) -> Option<ClientMessage> {
    if exists|m: ClientMessage| s == enc_client(m) {
        Some(choose|m: ClientMessage| s == enc_client(m))
    } else {
        None
    }
}

/// The spec-level reading of a byte string as a server message.
pub open spec fn spec_decode_server(s: Seq<u8>) -> Option<ServerMessage> {
    if exists|m: ServerMessage| s == enc_server(m) {
        Some(choose|m: ServerMessage| s == enc_server(m))
    } else {
        None
    }
}

/// Round trip: decoding the encoding of any client message gives that
/// message back.
pub proof fn lemma_client_round_trip(m: ClientMessage)
    ensures
        spec_decode_client(enc_client(m)) == Some(m),
{
    assert(enc_client(m) == enc_client(m));
    let w = choose|m2: ClientMessage| enc_client(m) == enc_client(m2);
    lemma_enc_client_injective(w, m);
}

/// Round trip: decoding the encoding of any server message gives that
/// message back.
pub proof fn lemma_server_round_trip(m: ServerMessage)
    ensures
        spec_decode_server(enc_server(m)) == Some(m),
{
    assert(enc_server(m) == enc_server(m));
    let w = choose|m2: ServerMessage| enc_server(m) == enc_server(m2);
    lemma_enc_server_injective(w, m);
}

fn tag_create_vec() -> (v: Vec<u8>)
    ensures
        v@ == tag_create(),
{
    let v = vec![67u8, 114, 101, 97, 116, 101];
    proof {
        assert(v@ =~= tag_create());
    }
    v
}

fn tag_join_vec() -> (v: Vec<u8>)
    ensures
        v@ == tag_join(),
{
    let v = vec![74u8, 111, 105, 110];
    proof {
        assert(v@ =~= tag_join());
    }
    v
}

fn tag_move_vec() -> (v: Vec<u8>)
    ensures
        v@ == tag_move(),
{
    let v = vec![77u8, 111, 118, 101];
    proof {
        assert(v@ =~= tag_move());
    }
    v
}

fn tag_connection_lost_vec() -> (v: Vec<u8>)
    ensures
        v@ == tag_connection_lost(),
{
    let v = vec![67u8, 111, 110, 110, 101, 99, 116, 105, 111, 110, 76, 111, 115, 116];
    proof {
        assert(v@ =~= tag_connection_lost());
    }
    v
}

fn tag_protocol_error_vec() -> (v: Vec<u8>)
    ensures
        v@ == tag_protocol_error(),
{
    let v = vec![80u8, 114, 111, 116, 111, 99, 111, 108, 69, 114, 114, 111, 114];
    proof {
        assert(v@ =~= tag_protocol_error());
    }
    v
}

fn tag_server_error_vec() -> (v: Vec<u8>)
    ensures
        v@ == tag_server_error(),
{
    let v = vec![83u8, 101, 114, 118, 101, 114, 69, 114, 114, 111, 114];
    proof {
        assert(v@ =~= tag_server_error());
    }
    v
}

fn tag_created_vec() -> (v: Vec<u8>)
    ensures
        v@ == tag_created(),
{
    let v = vec![67u8, 114, 101, 97, 116, 101, 100];
    proof {
        assert(v@ =~= tag_created());
    }
    v
}

fn tag_join_fail_vec() -> (v: Vec<u8>)
    ensures
        v@ == tag_join_fail(),
{
    let v = vec![74u8, 111, 105, 110, 70, 97, 105, 108];
    proof {
        assert(v@ =~= tag_join_fail());
    }
    v
}

fn tag_start_vec() -> (v: Vec<u8>)
    ensures
        v@ == tag_start(),
{
    let v = vec![83u8, 116, 97, 114, 116];
    proof {
        assert(v@ =~= tag_start());
    }
    v
}

fn tag_turn_result_vec() -> (v: Vec<u8>)
    ensures
        v@ == tag_turn_result(),
{
    let v = vec![84u8, 117, 114, 110, 82, 101, 115, 117, 108, 116];
    proof {
        assert(v@ =~= tag_turn_result());
    }
    v
}

fn tag_end_of_game_vec() -> (v: Vec<u8>)
    ensures
        v@ == tag_end_of_game(),
{
    let v = vec![69u8, 110, 100, 79, 102, 71, 97, 109, 101];
    proof {
        assert(v@ =~= tag_end_of_game());
    }
    v
}

/// Serializes a client message.
pub fn encode_client(m: &ClientMessage) -> (r: Vec<u8>)
    ensures
        r@ == enc_client(*m),
{
    match m {
        ClientMessage::Create => tag_create_vec(),
        ClientMessage::Join(n) => {
            let mut v = tag_join_vec();
            v.push(32);
            push_u32(&mut v, *n);
            proof {
                assert(v@ =~= enc_client(*m));
            }
            v
        },
        ClientMessage::Move(n) => {
            let mut v = tag_move_vec();
            v.push(32);
            push_u32(&mut v, *n);
            proof {
                assert(v@ =~= enc_client(*m));
            }
            v
        },
    }
}

/// Serializes a server message.
pub fn encode_server(m: &ServerMessage) -> (r: Vec<u8>)
    ensures
        r@ == enc_server(*m),
{
    match m {
        ServerMessage::ConnectionLost => tag_connection_lost_vec(),
        ServerMessage::ProtocolError => tag_protocol_error_vec(),
        ServerMessage::ServerError => tag_server_error_vec(),
        ServerMessage::JoinFail => tag_join_fail_vec(),
        ServerMessage::EndOfGame => tag_end_of_game_vec(),
        ServerMessage::Created(n) => {
            let mut v = tag_created_vec();
            v.push(32);
            push_u32(&mut v, *n);
            proof {
                assert(v@ =~= enc_server(*m));
            }
            v
        },
        ServerMessage::TurnResult(n) => {
            let mut v = tag_turn_result_vec();
            v.push(32);
            push_i8(&mut v, *n);
            proof {
                assert(v@ =~= enc_server(*m));
            }
            v
        },
        ServerMessage::Start(d) => {
            let mut v = tag_start_vec();
            v.push(32);
            push_u32(&mut v, d.number_turns);
            v.push(32);
            push_u32(&mut v, d.total_points);
            proof {
                assert(v@ =~= enc_server(*m));
            }
            v
        },
    }
}

/// True iff `b` is exactly `pat`.
fn match_exact(b: &[u8], pat: &Vec<u8>) -> (r: bool)
    ensures
        r <==> b@ == pat@,
{
    if b.len() != pat.len() {
        proof {
            if b@ == pat@ {
                assert(b@.len() == pat@.len());
            }
        }
        return false;
    }
    let mut i: usize = 0;
    while i < pat.len()
        invariant
            i <= pat@.len() == b@.len(),
            forall|k: int| 0 <= k < i ==> b@[k] == pat@[k],
        decreases pat@.len() - i,
    {
        if b[i] != pat[i] {
            proof {
                if b@ == pat@ {
                    assert(b@[i as int] == pat@[i as int]);
                }
            }
            return false;
        }
        i += 1;
    }
    proof {
        assert(b@ =~= pat@);
    }
    true
}

/// True iff `b` begins with `pat` followed by a space.
fn match_prefix_sp(b: &[u8], pat: &Vec<u8>) -> (r: bool)
    ensures
        r <==> (b@.len() > pat@.len() && b@.subrange(0, pat@.len() as int) == pat@ && b@[pat@.len()
            as int] == 32),
{
    if b.len() <= pat.len() {
        return false;
    }
    let mut i: usize = 0;
    while i < pat.len()
        invariant
            i <= pat@.len() < b@.len(),
            forall|k: int| 0 <= k < i ==> b@[k] == pat@[k],
        decreases pat@.len() - i,
    {
        if b[i] != pat[i] {
            proof {
                if b@.subrange(0, pat@.len() as int) == pat@ {
                    assert(b@.subrange(0, pat@.len() as int)[i as int] == b@[i as int]);
                }
            }
            return false;
        }
        i += 1;
    }
    proof {
        assert(b@.subrange(0, pat@.len() as int) =~= pat@);
    }
    b[pat.len()] == 32
}

/// Parses a byte string as a client message.  Exactly the canonical
/// encodings are accepted, so together with `encode_client` this is a
/// round trip: decoding an encoding gives the message back, and nothing
/// else decodes to it.
pub fn decode_client(b: &[u8]) -> (r: Option<ClientMessage>)
    ensures
        forall|m: ClientMessage| (r == Some(m)) <==> b@ == enc_client(m),
{
    let tc = tag_create_vec();
    let tj = tag_join_vec();
    let tm = tag_move_vec();
    if match_exact(b, &tc) {
        proof {
            assert forall|m: ClientMessage| b@ == enc_client(m) implies m
                == ClientMessage::Create by {
                lemma_enc_client_injective(m, ClientMessage::Create);
            }
        }
        Some(ClientMessage::Create)
    } else if match_prefix_sp(b, &tj) {
        match parse_u32_range(b, 5, b.len()) {
            Some(n) => {
                proof {
                    assert forall|k: int| 0 <= k < 4 implies b@[k] == tag_join()[k] by {
                        assert(b@.subrange(0, 4)[k] == b@[k]);
                    }
                    assert forall|k: int| 5 <= k < b@.len() implies b@[k] == dec_digits(
                        n as nat,
                    )[k - 5] by {
                        assert(b@.subrange(5, b@.len() as int)[k - 5] == b@[k]);
                    }
                    assert(b@ =~= enc_client(ClientMessage::Join(n)));
                    assert forall|m: ClientMessage| b@ == enc_client(m) implies m
                        == ClientMessage::Join(n) by {
                        lemma_enc_client_injective(m, ClientMessage::Join(n));
                    }
                }
                Some(ClientMessage::Join(n))
            },
            None => {
                proof {
                    assert forall|m: ClientMessage| b@ != enc_client(m) by {
                        if b@ == enc_client(m) {
                            lemma_enc_client_head(m);
                            assert(b@[0] == b@.subrange(0, 4)[0]);
                            assert(b@[0] == 74);
                            if let ClientMessage::Join(k) = m {
                                assert(b@.subrange(5, b@.len() as int) =~= dec_digits(k as nat));
                                assert(false);
                            }
                        }
                    }
                }
                None
            },
        }
    } else if match_prefix_sp(b, &tm) {
        match parse_u32_range(b, 5, b.len()) {
            Some(n) => {
                proof {
                    assert forall|k: int| 0 <= k < 4 implies b@[k] == tag_move()[k] by {
                        assert(b@.subrange(0, 4)[k] == b@[k]);
                    }
                    assert forall|k: int| 5 <= k < b@.len() implies b@[k] == dec_digits(
                        n as nat,
                    )[k - 5] by {
                        assert(b@.subrange(5, b@.len() as int)[k - 5] == b@[k]);
                    }
                    assert(b@ =~= enc_client(ClientMessage::Move(n)));
                    assert forall|m: ClientMessage| b@ == enc_client(m) implies m
                        == ClientMessage::Move(n) by {
                        lemma_enc_client_injective(m, ClientMessage::Move(n));
                    }
                }
                Some(ClientMessage::Move(n))
            },
            None => {
                proof {
                    assert forall|m: ClientMessage| b@ != enc_client(m) by {
                        if b@ == enc_client(m) {
                            lemma_enc_client_head(m);
                            assert(b@[0] == b@.subrange(0, 4)[0]);
                            assert(b@[0] == 77);
                            if let ClientMessage::Move(k) = m {
                                assert(b@.subrange(5, b@.len() as int) =~= dec_digits(k as nat));
                                assert(false);
                            }
                        }
                    }
                }
                None
            },
        }
    } else {
        proof {
            assert forall|m: ClientMessage| b@ != enc_client(m) by {
                if b@ == enc_client(m) {
                    match m {
                        ClientMessage::Create => {
                            assert(b@ == tag_create());
                        },
                        ClientMessage::Join(k) => {
                            lemma_dec_digits_ok(k as nat);
                            assert(b@.len() > 4);
                            assert(b@.subrange(0, 4) =~= tag_join());
                            assert(b@[4] == 32);
                        },
                        ClientMessage::Move(k) => {
                            lemma_dec_digits_ok(k as nat);
                            assert(b@.len() > 4);
                            assert(b@.subrange(0, 4) =~= tag_move());
                            assert(b@[4] == 32);
                        },
                    }
                }
            }
        }
        None
    }
}

/// How the bytes of an encoded `Start` message are laid out.
proof fn lemma_start_layout(b: Seq<u8>, d: StartData)
    requires
        b == enc_server(ServerMessage::Start(d)),
    ensures
        b.len() == 7 + dec_digits(d.number_turns as nat).len() + dec_digits(
            d.total_points as nat,
        ).len(),
        forall|k: int|
            6 <= k < 6 + dec_digits(d.number_turns as nat).len() ==> #[trigger] b[k] != 32,
        b[6 + dec_digits(d.number_turns as nat).len() as int] == 32,
        b.subrange(6, 6 + dec_digits(d.number_turns as nat).len() as int) == dec_digits(
            d.number_turns as nat,
        ),
        b.subrange(6 + dec_digits(d.number_turns as nat).len() as int + 1, b.len() as int) == dec_digits(
            d.total_points as nat,
        ),
{
    lemma_dec_digits_ok(d.number_turns as nat);
    lemma_dec_digits_ok(d.total_points as nat);
    let t = dec_digits(d.number_turns as nat);
    let p = dec_digits(d.total_points as nat);
    let l1 = t.len() as int;
    assert forall|k: int| 6 <= k < 6 + l1 implies #[trigger] b[k] != 32 by {
        assert(b[k] == t[k - 6]);
        assert(is_digit(t[k - 6]));
    }
    assert(b[6 + l1] == 32);
    assert(b.subrange(6, 6 + l1) =~= t);
    assert(b.subrange(6 + l1 + 1, b.len() as int) =~= p);
}

/// Parses a byte string as a server message.  Exactly the canonical
/// encodings are accepted, so together with `encode_server` this is a
/// round trip: decoding an encoding gives the message back, and nothing
/// else decodes to it.
pub fn decode_server(b: &[u8]) -> (r: Option<ServerMessage>)
    ensures
        forall|m: ServerMessage| (r == Some(m)) <==> b@ == enc_server(m),
{
    let tcl = tag_connection_lost_vec();
    let tpe = tag_protocol_error_vec();
    let tse = tag_server_error_vec();
    let tjf = tag_join_fail_vec();
    let teg = tag_end_of_game_vec();
    let tcd = tag_created_vec();
    let ttr = tag_turn_result_vec();
    let tst = tag_start_vec();
    if match_exact(b, &tcl) {
        proof {
            assert forall|m: ServerMessage| b@ == enc_server(m) implies m
                == ServerMessage::ConnectionLost by {
                lemma_enc_server_injective(m, ServerMessage::ConnectionLost);
            }
        }
        Some(ServerMessage::ConnectionLost)
    } else if match_exact(b, &tpe) {
        proof {
            assert forall|m: ServerMessage| b@ == enc_server(m) implies m
                == ServerMessage::ProtocolError by {
                lemma_enc_server_injective(m, ServerMessage::ProtocolError);
            }
        }
        Some(ServerMessage::ProtocolError)
    } else if match_exact(b, &tse) {
        proof {
            assert forall|m: ServerMessage| b@ == enc_server(m) implies m
                == ServerMessage::ServerError by {
                lemma_enc_server_injective(m, ServerMessage::ServerError);
            }
        }
        Some(ServerMessage::ServerError)
    } else if match_exact(b, &tjf) {
        proof {
            assert forall|m: ServerMessage| b@ == enc_server(m) implies m
                == ServerMessage::JoinFail by {
                lemma_enc_server_injective(m, ServerMessage::JoinFail);
            }
        }
        Some(ServerMessage::JoinFail)
    } else if match_exact(b, &teg) {
        proof {
            assert forall|m: ServerMessage| b@ == enc_server(m) implies m
                == ServerMessage::EndOfGame by {
                lemma_enc_server_injective(m, ServerMessage::EndOfGame);
            }
        }
        Some(ServerMessage::EndOfGame)
    } else if match_prefix_sp(b, &tcd) {
        match parse_u32_range(b, 8, b.len()) {
            Some(n) => {
                proof {
                    assert forall|k: int| 0 <= k < 7 implies b@[k] == tag_created()[k] by {
                        assert(b@.subrange(0, 7)[k] == b@[k]);
                    }
                    assert forall|k: int| 8 <= k < b@.len() implies b@[k] == dec_digits(
                        n as nat,
                    )[k - 8] by {
                        assert(b@.subrange(8, b@.len() as int)[k - 8] == b@[k]);
                    }
                    assert(b@ =~= enc_server(ServerMessage::Created(n)));
                    assert forall|m: ServerMessage| b@ == enc_server(m) implies m
                        == ServerMessage::Created(n) by {
                        lemma_enc_server_injective(m, ServerMessage::Created(n));
                    }
                }
                Some(ServerMessage::Created(n))
            },
            None => {
                proof {
                    assert forall|m: ServerMessage| b@ != enc_server(m) by {
                        if b@ == enc_server(m) {
                            lemma_enc_server_head(m);
                            assert(b@[0] == b@.subrange(0, 7)[0]);
                            assert(b@[1] == b@.subrange(0, 7)[1]);
                            assert(b@[0] == 67 && b@[1] == 114);
                            if let ServerMessage::Created(k) = m {
                                assert(b@.subrange(8, b@.len() as int) =~= dec_digits(k as nat));
                                assert(false);
                            }
                        }
                    }
                }
                None
            },
        }
    } else if match_prefix_sp(b, &ttr) {
        match parse_i8_range(b, 11, b.len()) {
            Some(n) => {
                proof {
                    assert forall|k: int| 0 <= k < 10 implies b@[k] == tag_turn_result()[k] by {
                        assert(b@.subrange(0, 10)[k] == b@[k]);
                    }
                    assert forall|k: int| 11 <= k < b@.len() implies b@[k] == i8_dec(n as int)[k
                        - 11] by {
                        assert(b@.subrange(11, b@.len() as int)[k - 11] == b@[k]);
                    }
                    assert(b@ =~= enc_server(ServerMessage::TurnResult(n)));
                    assert forall|m: ServerMessage| b@ == enc_server(m) implies m
                        == ServerMessage::TurnResult(n) by {
                        lemma_enc_server_injective(m, ServerMessage::TurnResult(n));
                    }
                }
                Some(ServerMessage::TurnResult(n))
            },
            None => {
                proof {
                    assert forall|m: ServerMessage| b@ != enc_server(m) by {
                        if b@ == enc_server(m) {
                            lemma_enc_server_head(m);
                            assert(b@[0] == b@.subrange(0, 10)[0]);
                            assert(b@[1] == b@.subrange(0, 10)[1]);
                            assert(b@[0] == 84 && b@[1] == 117);
                            if let ServerMessage::TurnResult(k) = m {
                                assert(b@.subrange(11, b@.len() as int) =~= i8_dec(k as int));
                                assert(false);
                            }
                        }
                    }
                }
                None
            },
        }
    } else if match_prefix_sp(b, &tst) {
        let blen = b.len();
        let mut j: usize = 6;
        while j < blen && b[j] != 32
            invariant
                6 <= j <= blen == b@.len(),
                forall|k: int| 6 <= k < j ==> #[trigger] b@[k] != 32,
            decreases blen - j,
        {
            j += 1;
        }
        if j == blen {
            proof {
                assert forall|m: ServerMessage| b@ != enc_server(m) by {
                    if b@ == enc_server(m) {
                        lemma_enc_server_head(m);
                        assert(b@[0] == b@.subrange(0, 5)[0]);
                        assert(b@[1] == b@.subrange(0, 5)[1]);
                        assert(b@[0] == 83 && b@[1] == 116);
                        if let ServerMessage::Start(d) = m {
                            lemma_start_layout(b@, d);
                            assert(b@[6 + dec_digits(d.number_turns as nat).len() as int] != 32);
                            assert(false);
                        }
                    }
                }
            }
            None
        } else {
            let t_opt = parse_u32_range(b, 6, j);
            let p_opt = parse_u32_range(b, j + 1, blen);
            proof {
                assert forall|m: ServerMessage|
                    b@ == enc_server(m) implies (m is Start && {
                    let d = m.arrow_Start_0();
                    j == 6 + dec_digits(d.number_turns as nat).len() && t_opt == Some(
                        d.number_turns,
                    ) && p_opt == Some(d.total_points)
                }) by {
                    lemma_enc_server_head(m);
                    assert(b@[0] == b@.subrange(0, 5)[0]);
                    assert(b@[1] == b@.subrange(0, 5)[1]);
                    assert(b@[0] == 83 && b@[1] == 116);
                    if let ServerMessage::Start(d) = m {
                        lemma_start_layout(b@, d);
                        let l1 = dec_digits(d.number_turns as nat).len() as int;
                        if j < 6 + l1 {
                            assert(b@[j as int] != 32);
                            assert(false);
                        }
                        if j > 6 + l1 {
                            assert(b@[6 + l1] != 32);
                            assert(false);
                        }
                        assert(j == 6 + l1);
                    } else {
                        assert(false);
                    }
                }
            }
            match (t_opt, p_opt) {
                (Some(t), Some(p)) => {
                    let data = StartData { number_turns: t, total_points: p };
                    proof {
                        assert forall|k: int| 0 <= k < 5 implies b@[k] == tag_start()[k] by {
                            assert(b@.subrange(0, 5)[k] == b@[k]);
                        }
                        assert forall|k: int| 6 <= k < j implies b@[k] == dec_digits(t as nat)[k
                            - 6] by {
                            assert(b@.subrange(6, j as int)[k - 6] == b@[k]);
                        }
                        assert forall|k: int| j < k < b@.len() implies b@[k] == dec_digits(
                            p as nat,
                        )[k - j - 1] by {
                            assert(b@.subrange(j + 1, blen as int)[k - j - 1] == b@[k]);
                        }
                        assert(b@ =~= enc_server(ServerMessage::Start(data)));
                        assert forall|m: ServerMessage| b@ == enc_server(m) implies m
                            == ServerMessage::Start(data) by {
                            lemma_enc_server_injective(m, ServerMessage::Start(data));
                        }
                    }
                    Some(ServerMessage::Start(data))
                },
                _ => {
                    None
                },
            }
        }
    } else {
        proof {
            assert forall|m: ServerMessage| b@ != enc_server(m) by {
                if b@ == enc_server(m) {
                    match m {
                        ServerMessage::ConnectionLost => {
                            assert(b@ == tag_connection_lost());
                        },
                        ServerMessage::ProtocolError => {
                            assert(b@ == tag_protocol_error());
                        },
                        ServerMessage::ServerError => {
                            assert(b@ == tag_server_error());
                        },
                        ServerMessage::JoinFail => {
                            assert(b@ == tag_join_fail());
                        },
                        ServerMessage::EndOfGame => {
                            assert(b@ == tag_end_of_game());
                        },
                        ServerMessage::Created(k) => {
                            lemma_dec_digits_ok(k as nat);
                            assert(b@.len() > 8);
                            assert(b@.subrange(0, 7) =~= tag_created());
                            assert(b@[7] == 32);
                        },
                        ServerMessage::TurnResult(k) => {
                            if k < 0 {
                                lemma_dec_digits_ok((-k) as nat);
                            } else {
                                lemma_dec_digits_ok(k as nat);
                            }
                            assert(i8_dec(k as int).len() >= 1);
                            assert(b@.len() > 10);
                            assert(b@.subrange(0, 10) =~= tag_turn_result());
                            assert(b@[10] == 32);
                        },
                        ServerMessage::Start(d) => {
                            lemma_dec_digits_ok(d.number_turns as nat);
                            lemma_dec_digits_ok(d.total_points as nat);
                            assert(b@.len() > 5);
                            assert(b@.subrange(0, 5) =~= tag_start());
                            assert(b@[5] == 32);
                        },
                    }
                }
            }
        }
        None
    }
}

} // verus!
