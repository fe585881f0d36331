use gossipnet::codec::{address_string, decode, encode, parse_address};
use gossipnet::types::{Address, Message, NetworkData, PeerInfo};

fn addr(o0: u8, o1: u8, o2: u8, o3: u8, port: u16) -> Address {
    Address { o0, o1, o2, o3, port }
}

fn lo(port: u16) -> Address {
    addr(127, 0, 0, 1, port)
}

fn round_trip(d: NetworkData) {
    let line = encode(&d);
    assert!(line.ends_with('\n'));
    let trimmed = &line[..line.len() - 1];
    assert_eq!(decode(trimmed), Ok(d));
}

#[test]
fn encode_message_exact() {
    let d = NetworkData::Message(Message {
        content: "12345".to_string(),
        from: lo(9000),
        timestamp: 5,
    });
    assert_eq!(
        encode(&d),
        "{\"type\":\"Message\",\"data\":{\"content\":\"12345\",\"from\":\"127.0.0.1:9000\",\"timestamp\":5}}\n"
    );
}

#[test]
fn encode_peer_info_exact() {
    let d = NetworkData::PeerInfo(PeerInfo {
        port: 9000,
        known_peers: vec![lo(9001), lo(9002)],
    });
    assert_eq!(
        encode(&d),
        "{\"type\":\"PeerInfo\",\"data\":{\"port\":9000,\"known_peers\":[\"127.0.0.1:9001\",\"127.0.0.1:9002\"]}}\n"
    );
}

#[test]
fn encode_peer_info_empty_exact() {
    let d = NetworkData::PeerInfo(PeerInfo { port: 1, known_peers: vec![] });
    assert_eq!(
        encode(&d),
        "{\"type\":\"PeerInfo\",\"data\":{\"port\":1,\"known_peers\":[]}}\n"
    );
}

#[test]
fn round_trip_message_basic() {
    round_trip(NetworkData::Message(Message {
        content: "hello world".to_string(),
        from: lo(9000),
        timestamp: 1700000000,
    }));
}

#[test]
fn round_trip_message_zero_timestamp() {
    round_trip(NetworkData::Message(Message {
        content: "x".to_string(),
        from: lo(1),
        timestamp: 0,
    }));
}

#[test]
fn round_trip_message_max_values() {
    round_trip(NetworkData::Message(Message {
        content: String::new(),
        from: addr(255, 255, 255, 255, u16::MAX),
        timestamp: u64::MAX,
    }));
}

#[test]
fn round_trip_peer_info_empty_peers() {
    round_trip(NetworkData::PeerInfo(PeerInfo { port: 0, known_peers: vec![] }));
}

#[test]
fn round_trip_peer_info_max_port() {
    round_trip(NetworkData::PeerInfo(PeerInfo {
        port: u16::MAX,
        known_peers: vec![lo(9000), addr(10, 0, 0, 7, 80), addr(0, 0, 0, 0, 0)],
    }));
}

#[test]
fn round_trip_message_with_escapes() {
    round_trip(NetworkData::Message(Message {
        content: "a\"b\\c\nd\te\rf\u{1}g".to_string(),
        from: lo(9000),
        timestamp: 7,
    }));
}

#[test]
fn round_trip_message_non_ascii() {
    round_trip(NetworkData::Message(Message {
        content: "héllo ✓ мир".to_string(),
        from: lo(9000),
        timestamp: 7,
    }));
}

#[test]
fn encoded_line_has_no_embedded_newline() {
    let d = NetworkData::Message(Message {
        content: "line one\nline two\r\n".to_string(),
        from: lo(9000),
        timestamp: 3,
    });
    let line = encode(&d);
    assert_eq!(line.matches('\n').count(), 1);
    assert!(line.ends_with('\n'));
}

#[test]
fn decode_rejects_garbage() {
    assert!(decode("").is_err());
    assert!(decode("{}").is_err());
    assert!(decode("not json at all").is_err());
    assert!(decode("{\"type\":\"Other\",\"data\":{}}").is_err());
}

#[test]
fn decode_rejects_truncated_message() {
    let d = NetworkData::Message(Message {
        content: "12345".to_string(),
        from: lo(9000),
        timestamp: 5,
    });
    let line = encode(&d);
    let trimmed = &line[..line.len() - 1];
    for cut in 1..trimmed.len() {
        assert!(decode(&trimmed[..cut]).is_err(), "accepted a truncation at {}", cut);
    }
}

#[test]
fn decode_rejects_trailing_data() {
    assert!(decode(
        "{\"type\":\"PeerInfo\",\"data\":{\"port\":1,\"known_peers\":[]}}x"
    )
    .is_err());
}

#[test]
fn decode_rejects_out_of_range_numbers() {
    assert!(decode(
        "{\"type\":\"PeerInfo\",\"data\":{\"port\":65536,\"known_peers\":[]}}"
    )
    .is_err());
    assert!(decode(
        "{\"type\":\"Message\",\"data\":{\"content\":\"x\",\"from\":\"256.0.0.1:9000\",\"timestamp\":5}}"
    )
    .is_err());
}

#[test]
fn decode_rejects_non_canonical_numbers() {
    assert!(decode(
        "{\"type\":\"PeerInfo\",\"data\":{\"port\":01,\"known_peers\":[]}}"
    )
    .is_err());
    assert!(decode(
        "{\"type\":\"Message\",\"data\":{\"content\":\"x\",\"from\":\"127.0.0.1:9000\",\"timestamp\":007}}"
    )
    .is_err());
}

#[test]
fn decode_rejects_whitespace_variation() {
    assert!(decode(
        "{\"type\": \"PeerInfo\",\"data\":{\"port\":1,\"known_peers\":[]}}"
    )
    .is_err());
}

#[test]
fn decode_accepts_max_port() {
    let r = decode("{\"type\":\"PeerInfo\",\"data\":{\"port\":65535,\"known_peers\":[]}}");
    assert_eq!(
        r,
        Ok(NetworkData::PeerInfo(PeerInfo { port: 65535, known_peers: vec![] }))
    );
}

#[test]
fn address_text_round_trip() {
    assert_eq!(address_string(&lo(9000)), "127.0.0.1:9000");
    assert_eq!(address_string(&addr(0, 0, 0, 0, 0)), "0.0.0.0:0");
    assert_eq!(address_string(&addr(255, 255, 255, 255, 65535)), "255.255.255.255:65535");
    for a in [lo(9000), addr(10, 20, 30, 40, 50), addr(0, 0, 0, 0, 0)] {
        assert_eq!(parse_address(&address_string(&a)), Some(a));
    }
}

#[test]
fn parse_address_rejects_malformed() {
    assert_eq!(parse_address(""), None);
    assert_eq!(parse_address("127.0.0.1"), None);
    assert_eq!(parse_address("127.0.0.1:"), None);
    assert_eq!(parse_address("127.0.0.1:9000x"), None);
    assert_eq!(parse_address("256.0.0.1:9000"), None);
    assert_eq!(parse_address("127.0.0.1:65536"), None);
    assert_eq!(parse_address("127.0.0.01:9000"), None);
    assert_eq!(parse_address("localhost:9000"), None);
}

#[test]
fn decode_message_attributes_sender() {
    let r = decode(
        "{\"type\":\"Message\",\"data\":{\"content\":\"2941293\",\"from\":\"127.0.0.1:9001\",\"timestamp\":42}}",
    );
    match r {
        Ok(NetworkData::Message(m)) => {
            assert_eq!(m.content, "2941293");
            assert_eq!(m.from, lo(9001));
            assert_eq!(m.timestamp, 42);
        }
        other => panic!("unexpected decode result: {:?}", other),
    }
}
