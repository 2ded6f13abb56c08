use mcmu::pipes::{
    client_game_step, client_greeting, client_info_step, host_control, host_game_step,
    host_greeting, host_info_step, parse_room_number, ClientGreeting, Forward, HostError,
    HostInfoStep, InfoStep, RoomNumberError, GAME_PORT, LOCALHOST,
};
use mcmu::protocol::Operate;
use mcmu::server::Endpoint;

fn relay() -> Endpoint {
    Endpoint { ip: 0x276c_b3b3, port: 27979 }
}

#[test]
fn player_game_pipe_learns_the_local_game() {
    let mut local = None;
    let stranger = Endpoint { ip: 0x0a00_0001, port: 1 };
    assert_eq!(client_game_step(&mut local, stranger, relay()), Forward::Drop);
    assert_eq!(local, None);
    let game = Endpoint { ip: LOCALHOST, port: 50000 };
    assert_eq!(client_game_step(&mut local, game, relay()), Forward::ToRelay);
    assert_eq!(local, Some(game));
    assert_eq!(client_game_step(&mut local, relay(), relay()), Forward::To(game));
    assert_eq!(client_game_step(&mut local, game, relay()), Forward::ToRelay);
    assert_eq!(client_game_step(&mut local, stranger, relay()), Forward::Drop);
}

#[test]
fn player_status_pipe_learns_the_local_game() {
    let mut local = None;
    let other_port_of_relay = Endpoint { ip: relay().ip, port: 1 };
    assert_eq!(client_info_step(&mut local, other_port_of_relay, relay()), InfoStep::Drop);
    let game = Endpoint { ip: 0xc0a8_0002, port: 50000 };
    assert_eq!(client_info_step(&mut local, game, relay()), InfoStep::ToRelay);
    assert_eq!(client_info_step(&mut local, relay(), relay()), InfoStep::Rewrite(game));
    assert_eq!(client_info_step(&mut local, other_port_of_relay, relay()), InfoStep::Drop);
}

#[test]
fn host_status_pipe() {
    let game = Endpoint { ip: LOCALHOST, port: GAME_PORT };
    let mut buf = [0u8; 1500];
    let pong = b"a;b;c;d;e;f;g;w;h;i;19133;19134;";
    buf[..pong.len()].copy_from_slice(pong);
    assert_eq!(host_info_step(game, relay(), true, &buf), HostInfoStep::Announce(19133));
    assert_eq!(host_info_step(game, relay(), false, &buf), HostInfoStep::ToRelay);
    assert_eq!(host_info_step(game, relay(), true, &[0u8; 1500]), HostInfoStep::Skip);
    assert_eq!(host_info_step(relay(), relay(), true, &buf), HostInfoStep::ToLocal);
    let stranger = Endpoint { ip: LOCALHOST, port: 1 };
    assert_eq!(host_info_step(stranger, relay(), true, &buf), HostInfoStep::Unknown);
}

#[test]
fn host_game_pipe() {
    let game = Endpoint { ip: LOCALHOST, port: 19133 };
    assert_eq!(host_game_step(game, relay(), game), Forward::ToRelay);
    assert_eq!(host_game_step(relay(), relay(), game), Forward::To(game));
    assert_eq!(host_game_step(Endpoint { ip: 1, port: 1 }, relay(), game), Forward::Drop);
}

#[test]
fn greetings() {
    assert_eq!(host_greeting(Some(Operate::Opened(123456))), Ok(123456));
    assert_eq!(host_greeting(Some(Operate::OperationFailed)), Err(HostError::Refused));
    assert_eq!(host_greeting(None), Err(HostError::InvalidReply));
    assert_eq!(host_control(Some(Operate::ConnectToMe(1, 2))), Some((1, 2)));
    assert_eq!(host_control(Some(Operate::HeartBeat)), None);
    assert_eq!(client_greeting(Some(Operate::ConnectToMe(3, 4))), ClientGreeting::Pipes(3, 4));
    assert_eq!(client_greeting(Some(Operate::OperationFailed)), ClientGreeting::WrongRoom);
    assert_eq!(client_greeting(Some(Operate::Open)), ClientGreeting::ServerTrouble);
}

#[test]
fn room_numbers() {
    assert_eq!(parse_room_number(b"123456"), Ok(123456));
    assert_eq!(parse_room_number(b"000042"), Ok(42));
    assert_eq!(parse_room_number(b"+12345"), Ok(12345));
    assert_eq!(parse_room_number(b"12345"), Err(RoomNumberError::WrongLength));
    assert_eq!(parse_room_number(b"12345a"), Err(RoomNumberError::Invalid));
}
