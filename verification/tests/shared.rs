use birdflop_tunnel::shared::{
    is_valid_label, normalize_address, parse_handshake_hostname, parse_packet, HandshakeParse,
};
use birdflop_tunnel::varint::read_varint;

fn write_varint(buf: &mut Vec<u8>, mut value: u32) {
    loop {
        let mut byte = (value & 0x7f) as u8;
        value >>= 7;
        if value != 0 {
            byte |= 0x80;
        }
        buf.push(byte);
        if value == 0 {
            break;
        }
    }
}

/// Build a Minecraft C→S handshake packet for the given address/port.
fn handshake(address: &str, port: u16) -> Vec<u8> {
    let mut body = Vec::new();
    write_varint(&mut body, 0); // packet id (handshake)
    write_varint(&mut body, 765); // protocol version
    write_varint(&mut body, address.len() as u32);
    body.extend_from_slice(address.as_bytes());
    body.extend_from_slice(&port.to_be_bytes());
    write_varint(&mut body, 2); // next state: login

    let mut packet = Vec::new();
    write_varint(&mut packet, body.len() as u32);
    packet.extend_from_slice(&body);
    packet
}

#[test]
fn parses_hostname() {
    let pkt = handshake("a3k9zq.tunnel.birdflop.com", 25565);
    match parse_handshake_hostname(&pkt) {
        HandshakeParse::Hostname(host) => assert_eq!(host, "a3k9zq.tunnel.birdflop.com"),
        _ => panic!("expected a hostname"),
    }
}

#[test]
fn strips_forge_suffix_and_lowercases() {
    let pkt = handshake("Survival.A3K9ZQ.tunnel.birdflop.com\0FML2\0", 25566);
    match parse_handshake_hostname(&pkt) {
        HandshakeParse::Hostname(host) => assert_eq!(host, "survival.a3k9zq.tunnel.birdflop.com"),
        _ => panic!("expected a hostname"),
    }
}

#[test]
fn needs_more_when_truncated() {
    let pkt = handshake("a3k9zq.tunnel.birdflop.com", 25565);
    assert!(matches!(
        parse_handshake_hostname(&pkt[..3]),
        HandshakeParse::NeedMore
    ));
}

#[test]
fn rejects_legacy_ping() {
    assert!(matches!(
        parse_handshake_hostname(&[0xFE, 0x01]),
        HandshakeParse::Invalid
    ));
}

#[test]
fn labels() {
    assert!(is_valid_label("survival"));
    assert!(is_valid_label("lobby-1"));
    assert!(!is_valid_label("-bad"));
    assert!(!is_valid_label("bad-"));
    assert!(!is_valid_label("Has.Dot"));
    assert!(!is_valid_label(""));
}

#[test]
fn label_lengths() {
    assert!(is_valid_label(&"a".repeat(63)));
    assert!(!is_valid_label(&"a".repeat(64)));
    assert!(is_valid_label("0"));
    assert!(!is_valid_label("-"));
    assert!(!is_valid_label("gr\u{fc}n"));
    assert!(!is_valid_label("two words"));
}

#[test]
fn every_prefix_of_a_handshake_needs_more() {
    let pkt = handshake("a3k9zq.tunnel.birdflop.com", 25565);
    for n in 0..pkt.len() {
        assert!(matches!(
            parse_handshake_hostname(&pkt[..n]),
            HandshakeParse::NeedMore
        ));
    }
}

#[test]
fn bytes_after_the_handshake_do_not_matter() {
    let mut pkt = handshake("A3K9ZQ.Tunnel.Birdflop.com...", 25565);
    pkt.extend_from_slice(&[0xFE, 0, 1, 2, 3]);
    match parse_handshake_hostname(&pkt) {
        HandshakeParse::Hostname(host) => assert_eq!(host, "a3k9zq.tunnel.birdflop.com"),
        _ => panic!("expected a hostname"),
    }
}

#[test]
fn rejects_what_is_no_handshake() {
    // A length of zero, a negative length and one over the limit.
    assert!(matches!(parse_handshake_hostname(&[0]), HandshakeParse::Invalid));
    assert!(matches!(
        parse_handshake_hostname(&[0xFF, 0xFF, 0xFF, 0xFF, 0x0F]),
        HandshakeParse::Invalid
    ));
    assert!(matches!(
        parse_handshake_hostname(&[0x81, 0x08]),
        HandshakeParse::Invalid
    ));
    // A length of more than five bytes is malformed; one that may still end is not.
    assert!(matches!(
        parse_handshake_hostname(&[0xFF; 16]),
        HandshakeParse::Invalid
    ));
    assert!(matches!(
        parse_handshake_hostname(&[0x80, 0x80, 0x80, 0x80, 0x80]),
        HandshakeParse::Invalid
    ));
    assert!(matches!(
        parse_handshake_hostname(&[0x80, 0x80, 0x80, 0x80]),
        HandshakeParse::NeedMore
    ));
    // Another packet id, and an empty address.
    assert!(matches!(parse_handshake_hostname(&[1, 1]), HandshakeParse::Invalid));
    assert!(matches!(
        parse_handshake_hostname(&handshake("", 25565)),
        HandshakeParse::Invalid
    ));
    assert!(matches!(
        parse_handshake_hostname(&handshake("...\0x", 25565)),
        HandshakeParse::Invalid
    ));
}

#[test]
fn packets_with_bad_addresses() {
    // No protocol version; no address length; an address beyond the packet; an address
    // that is not UTF-8; an address over the limit.
    assert!(matches!(parse_packet(&[0]), HandshakeParse::Invalid));
    assert!(matches!(parse_packet(&[0, 1]), HandshakeParse::Invalid));
    assert!(matches!(parse_packet(&[0, 1, 5, 97]), HandshakeParse::Invalid));
    assert!(matches!(parse_packet(&[0, 1, 1, 0xFF]), HandshakeParse::Invalid));
    let mut long = vec![0, 1, 0x80, 0x02];
    long.extend_from_slice(&[97; 256]);
    assert!(matches!(parse_packet(&long), HandshakeParse::Invalid));
    match parse_packet(&[0, 1, 2, 72, 105]) {
        HandshakeParse::Hostname(host) => assert_eq!(host, "hi"),
        _ => panic!("expected a hostname"),
    }
}

#[test]
fn normalizes_addresses() {
    assert_eq!(normalize_address("Play.Example."), "play.example");
    assert_eq!(normalize_address("a\0b.c"), "a");
    assert_eq!(normalize_address("\u{c4}B.."), "\u{c4}b");
    assert_eq!(normalize_address("..."), "");
    assert_eq!(normalize_address(&normalize_address("X.Y..\0Z")), "x.y");
}

#[test]
fn reads_varints() {
    let cases: Vec<(Vec<u8>, i32)> = vec![
        (vec![0x00], 0),
        (vec![0x7F], 127),
        (vec![0x80, 0x01], 128),
        (vec![0xFD, 0x05], 765),
        (vec![0xFF, 0xFF, 0xFF, 0xFF, 0x07], i32::MAX),
        (vec![0xFF, 0xFF, 0xFF, 0xFF, 0x0F], -1),
        (vec![0x80, 0x80, 0x80, 0x80, 0x08], i32::MIN),
    ];
    for (bytes, value) in cases {
        let mut pos = 0;
        assert_eq!(read_varint(&bytes, &mut pos), Some(value));
        assert_eq!(pos, bytes.len());
    }
    let mut pos = 1;
    assert_eq!(read_varint(&[9, 9, 9], &mut pos), Some(9));
    assert_eq!(pos, 2);
    let mut pos = 0;
    assert_eq!(read_varint(&[0x80, 0x80], &mut pos), None);
    assert_eq!(read_varint(&[0x80; 6], &mut pos), None);
    assert_eq!(pos, 0);
    let mut pos = 7;
    assert_eq!(read_varint(&[1], &mut pos), None);
    assert_eq!(pos, 7);
}
