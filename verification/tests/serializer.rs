use adroitly::{deserialize_ip, parse_ip, serialize_ip, split_messages, Message};

fn ip(s: &str) -> String {
    s.to_string()
}

#[test]
fn serialize_ip_writes_address_then_big_endian_port() {
    assert_eq!(serialize_ip("127.0.0.1:8080"), vec![127, 0, 0, 1, 0x1f, 0x90]);
    assert_eq!(serialize_ip("192.168.1.20:65535"), vec![192, 168, 1, 20, 255, 255]);
    assert_eq!(serialize_ip("0.0.0.0:0"), vec![0, 0, 0, 0, 0, 0]);
}

#[test]
fn parse_ip_accepts_what_str_parse_accepts() {
    assert_eq!(parse_ip("+1.02.3.004:+80"), Some(vec![1, 2, 3, 4, 0, 80]));
    assert_eq!(parse_ip("1.2.3.4.5:80"), Some(vec![1, 2, 3, 4, 0, 80]));
    assert_eq!(parse_ip("1.2.3.4:80:90"), Some(vec![1, 2, 3, 4, 0, 80]));
    assert_eq!(parse_ip("1.2.3.4:256"), Some(vec![1, 2, 3, 4, 1, 0]));
}

#[test]
fn parse_ip_refuses_malformed_addresses() {
    assert_eq!(parse_ip(""), None);
    assert_eq!(parse_ip("1.2.3.4"), None);
    assert_eq!(parse_ip("1.2.3:80"), None);
    assert_eq!(parse_ip("256.0.0.1:80"), None);
    assert_eq!(parse_ip("1.2.3.4:65536"), None);
    assert_eq!(parse_ip("1.2.3.4:"), None);
    assert_eq!(parse_ip("1.2.3.4.x:80"), None);
    assert_eq!(parse_ip("1..2.3:4"), None);
    assert_eq!(parse_ip("+.1.2.3:4"), None);
    assert_eq!(parse_ip("-1.2.3.4:5"), None);
    assert_eq!(parse_ip("1.2.3.4:++5"), None);
    assert_eq!(parse_ip("1.2.3.é:5"), None);
}

#[test]
fn deserialize_ip_writes_decimal_text() {
    assert_eq!(deserialize_ip(&[127, 0, 0, 1, 0x1f, 0x90]), "127.0.0.1:8080");
    assert_eq!(deserialize_ip(&[10, 20, 255, 0, 0, 7, 99, 99]), "10.20.255.0:7");
    assert_eq!(deserialize_ip(&[0, 0, 0, 0, 255, 255]), "0.0.0.0:65535");
}

#[test]
fn ip_roundtrip_from_bytes() {
    for b in [[1u8, 2, 3, 4, 5, 6], [255, 254, 0, 9, 0, 0], [10, 100, 200, 1, 39, 16]] {
        let text = deserialize_ip(&b);
        assert_eq!(serialize_ip(&text), b.to_vec());
    }
}

#[test]
fn join_serializes_flag_and_address() {
    let m = Message::Join(true, ip("10.0.0.2:7878"));
    assert_eq!(m.serialize(), vec![0, 1, 10, 0, 0, 2, 0x1e, 0xc6]);
    let m = Message::Join(false, ip("10.0.0.2:7878"));
    assert_eq!(m.serialize(), vec![0, 0, 10, 0, 0, 2, 0x1e, 0xc6]);
}

#[test]
fn pos_serializes_float_bits_big_endian() {
    let m = Message::Pos(1.5f64.to_bits(), (-2.0f64).to_bits());
    let mut want = vec![2u8];
    want.extend_from_slice(&1.5f64.to_be_bytes());
    want.extend_from_slice(&(-2.0f64).to_be_bytes());
    assert_eq!(m.serialize(), want);
    assert_eq!(want[1], 0x3f);
    assert_eq!(want[2], 0xf8);
    assert_eq!(want[9], 0xc0);
}

#[test]
fn bullet_serializes_age_in_sixteen_bytes() {
    let m = Message::Bullet(1, 2, 3, 4, 300);
    let bytes = m.serialize();
    assert_eq!(bytes.len(), 49);
    assert_eq!(bytes[0], 3);
    assert_eq!(&bytes[1..9], &[0, 0, 0, 0, 0, 0, 0, 1]);
    assert_eq!(&bytes[25..33], &[0, 0, 0, 0, 0, 0, 0, 4]);
    assert_eq!(&bytes[33..47], &[0u8; 14]);
    assert_eq!(&bytes[47..49], &[1, 0x2c]);
}

#[test]
fn death_fort_and_connection_tags() {
    assert_eq!(Message::Death.serialize(), vec![4]);
    let fort = Message::Fort(0x0102030405060708, 0).serialize();
    assert_eq!(fort, vec![5, 1, 2, 3, 4, 5, 6, 7, 8, 0, 0, 0, 0, 0, 0, 0, 0]);
    let connection = Message::FortConnection(1, 2, 3, u64::MAX).serialize();
    assert_eq!(connection.len(), 33);
    assert_eq!(connection[0], 6);
    assert_eq!(&connection[25..33], &[255u8; 8]);
}

#[test]
fn curr_players_counts_then_lists() {
    let m = Message::CurrPlayers(vec![ip("1.2.3.4:5"), ip("9.8.7.6:258")]);
    assert_eq!(m.serialize(), vec![1, 2, 1, 2, 3, 4, 0, 5, 9, 8, 7, 6, 1, 2]);
    assert_eq!(Message::CurrPlayers(vec![]).serialize(), vec![1, 0]);
}

#[test]
fn curr_players_count_byte_wraps() {
    let ips: Vec<String> = (0..256).map(|i| format!("1.1.1.{}:1", i % 256)).collect();
    let bytes = Message::CurrPlayers(ips).serialize();
    assert_eq!(bytes[1], 0);
    assert_eq!(bytes.len(), 2 + 6 * 256);
    assert_eq!(Message::deserialize(&bytes), Some(Message::CurrPlayers(vec![])));
}

#[test]
fn deserialize_every_kind() {
    let all = vec![
        Message::Join(true, ip("127.0.0.1:8080")),
        Message::Join(false, ip("8.8.4.4:53")),
        Message::CurrPlayers(vec![ip("1.2.3.4:5"), ip("6.7.8.9:10")]),
        Message::CurrPlayers(vec![]),
        Message::Pos(1.5f64.to_bits(), (-2.25f64).to_bits()),
        Message::Bullet(1, 2, 3, 4, u128::MAX),
        Message::Death,
        Message::Fort(7, 8),
        Message::FortConnection(1, 2, 3, 4),
    ];
    for m in all {
        let bytes = m.serialize();
        assert!(Message::can_deserialize(&bytes));
        assert_eq!(Message::deserialize(&bytes), Some(m));
    }
}

#[test]
fn deserialize_canonicalizes_address_text() {
    let bytes = Message::Join(true, ip("+001.2.3.4:0080")).serialize();
    assert_eq!(Message::deserialize(&bytes), Some(Message::Join(true, ip("1.2.3.4:80"))));
}

#[test]
fn deserialize_unknown_tag_is_none() {
    assert!(Message::can_deserialize(&[7]));
    assert_eq!(Message::deserialize(&[7]), None);
    assert_eq!(Message::deserialize(&[255, 1, 2]), None);
}

#[test]
fn can_deserialize_needs_whole_frame() {
    assert!(!Message::can_deserialize(&[]));
    assert!(!Message::can_deserialize(&[1]));
    assert!(!Message::can_deserialize(&[1, 1, 0, 0, 0, 0, 0]));
    assert!(Message::can_deserialize(&[1, 1, 0, 0, 0, 0, 0, 0]));
    assert!(!Message::can_deserialize(&[0, 1, 2, 3, 4, 5, 6]));
    assert!(!Message::can_deserialize(&[2; 16]));
    assert!(Message::can_deserialize(&[2; 17]));
    assert!(!Message::can_deserialize(&[3; 48]));
    assert!(Message::can_deserialize(&[4]));
    assert!(!Message::can_deserialize(&[6; 32]));
}

#[test]
fn deserialize_ignores_trailing_bytes() {
    let m = Message::Fort(11, 12);
    let mut bytes = m.serialize();
    bytes.extend_from_slice(&[4, 0, 9, 9]);
    assert_eq!(Message::deserialize(&bytes), Some(m));
}

#[test]
fn join_flag_reads_any_nonzero_as_true() {
    let bytes = [0u8, 5, 1, 2, 3, 4, 0, 9];
    let m = Message::deserialize(&bytes).unwrap();
    assert_eq!(m, Message::Join(true, ip("1.2.3.4:9")));
    assert_eq!(m.serialize(), vec![0, 1, 1, 2, 3, 4, 0, 9]);
}

#[test]
fn len_matches_serialized_length() {
    let all = vec![
        Message::Join(true, ip("127.0.0.1:8080")),
        Message::CurrPlayers(vec![ip("1.2.3.4:5"); 42]),
        Message::Pos(0, 0),
        Message::Bullet(0, 0, 0, 0, 0),
        Message::Death,
        Message::Fort(0, 0),
        Message::FortConnection(0, 0, 0, 0),
    ];
    for m in all {
        assert_eq!(m.len() as usize, m.serialize().len());
    }
    assert_eq!(Message::CurrPlayers(vec![ip("1.2.3.4:5"); 42]).len(), 254);
    assert_eq!(Message::Join(false, ip("1.2.3.4:5")).len(), 8);
}

#[test]
fn stepping_by_len_walks_a_stream() {
    let msgs = vec![
        Message::Pos(1, 2),
        Message::Death,
        Message::CurrPlayers(vec![ip("1.2.3.4:5")]),
        Message::Bullet(5, 6, 7, 8, 9),
    ];
    let mut stream = Vec::new();
    for m in &msgs {
        stream.extend(m.serialize());
    }
    let mut start = 0;
    let mut read = Vec::new();
    while start < stream.len() {
        assert!(Message::can_deserialize(&stream[start..]));
        let m = Message::deserialize(&stream[start..]).unwrap();
        start += m.len() as usize;
        read.push(m);
    }
    assert_eq!(read, msgs);
}

#[test]
fn split_messages_reads_a_buffer() {
    let msgs = vec![
        Message::Join(false, ip("1.2.3.4:5")),
        Message::Pos(1, 2),
        Message::Death,
        Message::CurrPlayers(vec![ip("1.2.3.4:5"), ip("6.7.8.9:10")]),
        Message::FortConnection(1, 2, 3, 4),
    ];
    let mut stream = Vec::new();
    for m in &msgs {
        stream.extend(m.serialize());
    }
    assert_eq!(split_messages(&stream), Some(msgs));
    assert_eq!(split_messages(&[]), Some(vec![]));
}

#[test]
fn split_messages_refuses_what_cannot_be_read() {
    let mut stream = Message::Death.serialize();
    stream.extend(Message::Pos(1, 2).serialize());
    stream.pop();
    assert_eq!(split_messages(&stream), None);
    assert_eq!(split_messages(&[4, 4, 9, 4]), None);
    let mut long = vec![1u8, 43];
    long.extend(vec![0u8; 6 * 43]);
    assert_eq!(split_messages(&long), None);
    let mut most = vec![1u8, 42];
    most.extend(vec![0u8; 6 * 42]);
    assert_eq!(split_messages(&most), Some(vec![Message::CurrPlayers(vec![ip("0.0.0.0:0"); 42])]));
}
