use mcmu::protocol::{
    be_to_u32, connect_packet, frame_outgoing, is_ack, u32_to_be, unwrap_incoming,
    CommunicatePacket, Received,
};

#[test]
fn packet_kinds() {
    assert_eq!(CommunicatePacket::CONNECT, 0);
    assert_eq!(CommunicatePacket::ACK, 1);
    assert_eq!(CommunicatePacket::DATA, 2);
    assert_eq!(CommunicatePacket::HEARTBEAT, 3);
    assert_eq!(CommunicatePacket::CLOSE, 4);
}

#[test]
fn numbers_are_big_endian() {
    assert_eq!(u32_to_be(0x01020304), 0x01020304u32.to_be_bytes());
    assert_eq!(u32_to_be(u32::MAX), [255, 255, 255, 255]);
    assert_eq!(be_to_u32(&[9, 1, 2, 3, 4], 1), 0x01020304);
}

#[test]
fn dialling_packet() {
    assert_eq!(connect_packet(0x0a0b0c0d), [0, 0x0a, 0x0b, 0x0c, 0x0d]);
}

#[test]
fn acknowledgement_test() {
    let mut buf = [0u8; 1500];
    buf[..5].copy_from_slice(&[1, 0, 0, 1, 2]);
    assert!(is_ack(&buf, 5, true, 258));
    assert!(!is_ack(&buf, 5, false, 258));
    assert!(!is_ack(&buf, 6, true, 258));
    assert!(!is_ack(&buf, 5, true, 259));
    buf[0] = 0;
    assert!(!is_ack(&buf, 5, true, 258));
}

#[test]
fn payload_towards_relay_gets_a_kind_byte() {
    assert_eq!(frame_outgoing(b"abc", true), vec![2, b'a', b'b', b'c']);
    assert_eq!(frame_outgoing(b"abc", false), b"abc".to_vec());
}

#[test]
fn framed_payload_comes_out_unchanged() {
    let framed = frame_outgoing(b"game data", true);
    let mut buf = [0u8; 1500];
    buf[..framed.len()].copy_from_slice(&framed);
    buf[1499] = 77;
    let r = unwrap_incoming(&mut buf, framed.len(), true);
    assert_eq!(r, Received::Payload(9));
    assert_eq!(&buf[..9], b"game data");
    assert_eq!(buf[1498], 77);
    assert_eq!(buf[1499], 77);
}

#[test]
fn relay_close_and_other_kinds() {
    let mut buf = [4u8, 1, 2];
    assert_eq!(unwrap_incoming(&mut buf, 3, true), Received::Closed);
    assert_eq!(buf, [4, 1, 2]);
    let mut buf = [3u8, 1, 2];
    assert_eq!(unwrap_incoming(&mut buf, 1, true), Received::Skipped);
    let mut buf = [2u8, 1, 2];
    assert_eq!(unwrap_incoming(&mut buf, 3, false), Received::Payload(3));
    assert_eq!(buf, [2, 1, 2]);
}

#[test]
fn empty_buffer_passes_datagram_from_others() {
    let mut buf: [u8; 0] = [];
    assert_eq!(unwrap_incoming(&mut buf, 0, false), Received::Payload(0));
}
