use mcmu::protocol::{connect_packet, Operate};
use mcmu::server::{
    classify_request, Bridge, BridgeError, BridgePeer, Endpoint, Lobby, Relay, Request, Room,
    Route, ServerError, ROOM_ID,
};

fn ep(a: u8, b: u8, c: u8, d: u8, port: u16) -> Endpoint {
    Endpoint { ip: u32::from_be_bytes([a, b, c, d]), port }
}

#[test]
fn endpoint_keys_differ() {
    assert_ne!(ep(1, 2, 3, 4, 5).key(), ep(1, 2, 3, 4, 6).key());
    assert_ne!(ep(1, 2, 3, 4, 5).key(), ep(1, 2, 3, 5, 5).key());
    assert_eq!(ep(0, 0, 0, 1, 2).key(), 65538);
}

#[test]
fn bridge_takes_one_endpoint_per_address() {
    let x = ep(10, 0, 0, 1, 4000);
    let y = ep(10, 0, 0, 2, 5000);
    let mut b = Bridge::new(x.ip, y.ip);
    assert!(!b.connected());
    assert_eq!(b.upgrade(ep(9, 9, 9, 9, 1)), Err(BridgeError::CannotUpgrade));
    assert_eq!(b.upgrade(y), Ok(()));
    assert!(!b.connected());
    assert_eq!(b.upgrade(ep(10, 0, 0, 2, 1)), Err(BridgeError::CannotUpgrade));
    assert_eq!(b.upgrade(x), Ok(()));
    assert!(b.connected());
    assert_eq!(b.peer1, BridgePeer::Ready(x));
    assert_eq!(b.finish(), (x, y));
}

#[test]
fn bridge_between_one_address_fills_first_end_first() {
    let x = ep(10, 0, 0, 1, 4000);
    let y = ep(10, 0, 0, 1, 5000);
    let mut b = Bridge::new(x.ip, x.ip);
    assert_eq!(b.upgrade(y), Ok(()));
    assert_eq!(b.upgrade(x), Ok(()));
    assert_eq!(b.finish(), (y, x));
}

#[test]
fn pipe_numbers_follow_the_counter_and_wrap() {
    let mut r = Relay::new(u32::MAX - 1);
    assert_eq!(r.find_id(), u32::MAX);
    assert_eq!(r.find_id(), 0);
    let (a, b) = r.open_bridges(1, 2);
    assert_eq!((a, b), (1, 2));
    // taken numbers are skipped
    let mut r = Relay::new(0);
    let (a, b) = r.open_bridges(1, 2);
    assert_eq!((a, b), (1, 2));
    let mut r2 = Relay::new(u32::MAX);
    assert_eq!(r2.open_bridges(1, 2), (0, 1));
    assert_eq!(r2.find_id(), 2);
}

fn dial(r: &mut Relay, from: Endpoint, cid: u32) -> Route {
    let mut buf = [0u8; 1500];
    buf[..5].copy_from_slice(&connect_packet(cid));
    r.route(from, &buf, 5)
}

fn send(r: &mut Relay, from: Endpoint, kind: u8, len: usize) -> Route {
    let mut buf = [0u8; 1500];
    buf[0] = kind;
    r.route(from, &buf, len)
}

#[test]
fn rendezvous_makes_a_pipe() {
    let player = ep(1, 1, 1, 1, 1111);
    let host = ep(2, 2, 2, 2, 2222);
    let mut r = Relay::new(100);
    let (c1, c2) = r.open_bridges(player.ip, host.ip);
    assert_eq!((c1, c2), (101, 102));
    assert_eq!(dial(&mut r, host, c1), Route::Pending);
    assert_eq!(dial(&mut r, player, c1), Route::Bridged(player, host));
    assert_eq!(send(&mut r, player, 2, 10), Route::Forward(host));
    assert_eq!(send(&mut r, host, 2, 10), Route::Forward(player));
    assert_eq!(dial(&mut r, host, c1), Route::Echo);
    assert_eq!(send(&mut r, host, 3, 1), Route::Quiet);
    assert_eq!(send(&mut r, host, 9, 1), Route::Malformed);
    // the second bridge is still waiting
    assert_eq!(dial(&mut r, ep(3, 3, 3, 3, 1), c2), Route::Refused);
}

#[test]
fn stray_datagrams() {
    let mut r = Relay::new(0);
    let x = ep(1, 1, 1, 1, 1);
    assert_eq!(dial(&mut r, x, 42), Route::Quiet);
    assert_eq!(send(&mut r, x, 3, 1), Route::Quiet);
    assert_eq!(send(&mut r, x, 2, 10), Route::Stray);
    // a dialling datagram of the wrong length is no dialling datagram
    assert_eq!(send(&mut r, x, 0, 6), Route::Stray);
}

#[test]
fn idle_pipe_is_dropped_by_the_fourth_sweep() {
    let player = ep(1, 1, 1, 1, 1111);
    let host = ep(2, 2, 2, 2, 2222);
    let mut r = Relay::new(0);
    let (c1, _) = r.open_bridges(player.ip, host.ip);
    dial(&mut r, player, c1);
    assert_eq!(dial(&mut r, host, c1), Route::Bridged(player, host));
    r.sweep();
    r.sweep();
    r.sweep();
    assert_eq!(send(&mut r, host, 2, 4), Route::Forward(player));
    // traffic reset the clock: three more sweeps keep the pipe
    r.sweep();
    r.sweep();
    r.sweep();
    assert_eq!(send(&mut r, player, 2, 4), Route::Forward(host));
    r.sweep();
    r.sweep();
    r.sweep();
    r.sweep();
    assert_eq!(send(&mut r, player, 2, 4), Route::Stray);
    assert_eq!(send(&mut r, host, 2, 4), Route::Stray);
}

#[test]
fn waiting_bridge_is_dropped_by_the_fourth_sweep() {
    let player = ep(1, 1, 1, 1, 1111);
    let host = ep(2, 2, 2, 2, 2222);
    let mut r = Relay::new(0);
    let (c1, _) = r.open_bridges(player.ip, host.ip);
    r.sweep();
    r.sweep();
    r.sweep();
    assert_eq!(dial(&mut r, player, c1), Route::Pending);
    r.sweep();
    assert_eq!(dial(&mut r, host, c1), Route::Quiet);
}

#[test]
fn requests() {
    assert_eq!(classify_request(Some(Operate::Open)), Request::OpenRoom);
    assert_eq!(classify_request(Some(Operate::HelloTo(7))), Request::Join(7));
    assert_eq!(classify_request(Some(Operate::HeartBeat)), Request::Other);
    assert_eq!(classify_request(None), Request::Other);
}

#[test]
fn rooms() {
    let mut lobby: Lobby<u8> = Lobby::new();
    assert_eq!(lobby.next_room(), Ok(ROOM_ID));
    assert_eq!(ROOM_ID, 123456);
    let host = ep(5, 5, 5, 5, 55);
    lobby.insert_room(ROOM_ID, Room { tx: 1, addr: host });
    assert_eq!(lobby.room(ROOM_ID).map(|r| (r.tx, r.addr)), Some((1, host)));
    assert!(lobby.room(1).is_none());
    lobby.close_room(ROOM_ID);
    assert!(lobby.room(ROOM_ID).is_none());
    let _: Result<u32, ServerError> = lobby.next_room();
}
