use mcmu::mcpe::{announced_port, bytes_equal, MCPEInfo, PongCache};

const SAMPLE_HEX: &str = "1c0000000000d1fe2180f5403287a99bb200ffff00fefefefefdfdfdfd12345678005d4d4350453b46616e6379466c616d65583b3435363b312e31372e32302e32323b313b383b31333738363935373235393131343130313130353be68891e79a84e4b896e7958c3b43726561746976653b313b35343339323b35343339333b";

fn sample() -> Vec<u8> {
    hex::decode(SAMPLE_HEX).unwrap()
}

#[test]
fn reads_world_name_and_port_of_sample_pong() {
    let data = sample();
    let info = MCPEInfo::deserialize(&data).unwrap();
    assert_eq!(info.world_name, "我的世界");
    assert_eq!(info.game_port, 54392);
}

#[test]
fn unchanged_pong_is_written_back_as_it_was() {
    let data = sample();
    let info = MCPEInfo::deserialize(&data).unwrap();
    assert_eq!(info.serialize(), data);
}

#[test]
fn rewritten_port_is_read_back() {
    let data = sample();
    let mut info = MCPEInfo::deserialize(&data).unwrap();
    info.game_port = 60000;
    let out = info.serialize();
    let text = String::from_utf8_lossy(&out).into_owned();
    assert!(text.ends_with(";Creative;1;60000;60001;"));
    let again = MCPEInfo::deserialize(&out).unwrap();
    assert_eq!(again.game_port, 60000);
    assert_eq!(again.world_name, "我的世界");
}

#[test]
fn rewritten_world_name_is_read_back() {
    let data = b"a;b;c;d;e;f;g;old;h;i;1;2;tail".to_vec();
    let mut info = MCPEInfo::deserialize(&data).unwrap();
    assert_eq!(info.world_name, "old");
    info.world_name = String::from("Neue Welt");
    let out = info.serialize();
    assert_eq!(out, b"a;b;c;d;e;f;g;Neue Welt;h;i;1;2;tail".to_vec());
    let again = MCPEInfo::deserialize(&out).unwrap();
    assert_eq!(again.world_name, "Neue Welt");
    assert_eq!(again.game_port, 1);
}

#[test]
fn pong_with_eleven_semicolons_is_refused() {
    assert!(MCPEInfo::deserialize(b"a;b;c;d;e;f;g;h;i;j;k;l").is_none());
    assert!(MCPEInfo::deserialize(b"").is_none());
}

#[test]
fn pong_with_exactly_twelve_semicolons_has_empty_tail() {
    let data = b";;;;;;;w;;;7;8;";
    let info = MCPEInfo::deserialize(data).unwrap();
    assert_eq!(info.world_name, "w");
    assert_eq!(info.game_port, 7);
    assert_eq!(info.serialize(), b";;;;;;;w;;;7;8;".to_vec());
}

#[test]
fn later_semicolons_stay_in_the_tail() {
    let data = b"1;2;3;4;5;6;7;n;9;10;11;12;x;y;z";
    let mut info = MCPEInfo::deserialize(data).unwrap();
    assert_eq!(info.game_port, 11);
    info.game_port = 5;
    assert_eq!(info.serialize(), b"1;2;3;4;5;6;7;n;9;10;5;6;x;y;z".to_vec());
}

#[test]
fn unreadable_port_reads_as_zero() {
    let info = MCPEInfo::deserialize(b"a;b;c;d;e;f;g;w;h;i;abc;2;").unwrap();
    assert_eq!(info.game_port, 0);
    let info = MCPEInfo::deserialize(b"a;b;c;d;e;f;g;w;h;i;70000;2;").unwrap();
    assert_eq!(info.game_port, 0);
    let info = MCPEInfo::deserialize(b"a;b;c;d;e;f;g;w;h;i;;2;").unwrap();
    assert_eq!(info.game_port, 0);
    let info = MCPEInfo::deserialize(b"a;b;c;d;e;f;g;w;h;i;+123;2;").unwrap();
    assert_eq!(info.game_port, 123);
    let info = MCPEInfo::deserialize(b"a;b;c;d;e;f;g;w;h;i;0065535;2;").unwrap();
    assert_eq!(info.game_port, 65535);
}

#[test]
fn invalid_utf8_world_name_gets_replacement_characters() {
    let info = MCPEInfo::deserialize(b"a;b;c;d;e;f;g;x\xffy;h;i;1;2;").unwrap();
    assert_eq!(info.world_name, "x\u{fffd}y");
}

#[test]
fn announced_port_of_sample() {
    assert_eq!(announced_port(&sample()), Some(54392));
    assert_eq!(announced_port(b"no semicolons"), None);
}

#[test]
fn pong_cache_rewrites_once() {
    let data = sample();
    let mut cache = PongCache::new();
    assert!(cache.refresh(&data, 40000));
    let first = cache.load().to_vec();
    let text = String::from_utf8_lossy(&first).into_owned();
    assert!(text.ends_with(";40000;40001;"));
    // the same pong again keeps what was rewritten, even with another port
    assert!(cache.refresh(&data, 1234));
    assert_eq!(cache.load(), &first[..]);
    // a malformed pong is refused and the cache kept
    assert!(!cache.refresh(b"garbage", 1234));
    assert_eq!(cache.load(), &first[..]);
}

#[test]
fn empty_pong_matches_empty_cache() {
    let mut cache = PongCache::new();
    assert!(cache.refresh(b"", 1));
    assert_eq!(cache.load(), b"");
}

#[test]
fn byte_strings_compare() {
    assert!(bytes_equal(b"abc", b"abc"));
    assert!(!bytes_equal(b"abc", b"abd"));
    assert!(!bytes_equal(b"abc", b"ab"));
}

#[test]
fn accessors_read_and_write_name_and_port() {
    let data = sample();
    let mut info = MCPEInfo::deserialize(&data).unwrap();
    assert_eq!(info.world_name(), "我的世界");
    assert_eq!(info.game_port(), 54392);
    info.set_game_port(1000);
    info.set_world_name(String::from("room"));
    assert_eq!(info.game_port(), 1000);
    assert_eq!(info.world_name(), "room");
    let out = info.serialize();
    let again = MCPEInfo::deserialize(&out).unwrap();
    assert_eq!(again.world_name(), "room");
    assert_eq!(again.game_port(), 1000);
}

#[test]
fn refresh_needs_no_port_bound_when_nothing_is_rewritten() {
    let data = sample();
    let mut cache = PongCache::new();
    assert!(!cache.refresh(b"no pong", u16::MAX));
    assert!(cache.refresh(&data, 100));
    assert_eq!(cache.last(), &data[..]);
    assert!(cache.refresh(&data, u16::MAX));
    let again = MCPEInfo::deserialize(cache.load()).unwrap();
    assert_eq!(again.game_port, 100);
    assert_eq!(again.world_name, "我的世界");
}
