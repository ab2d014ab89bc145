use nodetool::http::parse_request;
use nodetool::ws::{
    accept_key, base64, frame_bytes, frame_header, payload_length, sha1, unmask, Assembly, Message, Received,
};

fn hex(bytes: &[u8]) -> String {
    bytes.iter().map(|b| format!("{b:02x}")).collect()
}

#[test]
fn sha1_matches_the_standard_vectors() {
    assert_eq!(hex(&sha1(b"abc")), "a9993e364706816aba3e25717850c26c9cd0d89d");
    assert_eq!(hex(&sha1(b"")), "da39a3ee5e6b4b0d3255bfef95601890afd80709");
    assert_eq!(
        hex(&sha1(b"abcdbcdecdefdefgefghfghighijhijkijkljklmklmnlmnomnopnopq")),
        "84983e441c3bd26ebaae4aa1f95129e5e54670f1"
    );
}

#[test]
fn base64_pads_the_last_group() {
    assert_eq!(base64(b""), "");
    assert_eq!(base64(b"M"), "TQ==");
    assert_eq!(base64(b"Ma"), "TWE=");
    assert_eq!(base64(b"Man"), "TWFu");
    assert_eq!(base64(b"Many hands"), "TWFueSBoYW5kcw==");
}

#[test]
fn the_handshake_answers_the_sample_key() {
    assert_eq!(accept_key("dGhlIHNhbXBsZSBub25jZQ=="), "s3pPLMBiTxaQ9kYGzzhZRbK+xOo=");
}

#[test]
fn a_frame_header_reads_its_flags() {
    let header = frame_header(0x8185).expect("a masked final text frame");
    assert!(header.fin);
    assert_eq!(header.opcode, 1);
    assert_eq!(header.length_code, 5);
    let fragment = frame_header(0x0180).expect("a masked first fragment");
    assert!(!fragment.fin);
    assert_eq!(fragment.length_code, 0);
    assert_eq!(frame_header(0x8105).err(), Some("client frames must be masked"));
    assert_eq!(frame_header(0xC185).err(), Some("reserved frame bits set"));
}

#[test]
fn the_payload_length_takes_the_extended_form_beyond_the_short_codes() {
    assert_eq!(payload_length(5, 999), Ok(5));
    assert_eq!(payload_length(126, 300), Ok(300));
    assert_eq!(payload_length(127, 70000), Ok(70000));
    assert_eq!(payload_length(127, 2_000_000), Err("message too large"));
}

#[test]
fn unmasking_cycles_through_the_mask() {
    let mask = [0x37, 0xfa, 0x21, 0x3d];
    let mut payload = vec![0x7f, 0x9f, 0x4d, 0x51, 0x58];
    unmask(&mut payload, mask);
    assert_eq!(payload, b"Hello".to_vec());
}

#[test]
fn fragments_assemble_into_one_text_message() {
    let mut assembly = Assembly::new();
    assert!(matches!(assembly.frame(false, 0x1, b"Hel".to_vec()), Ok(Received::Pending)));
    assert!(matches!(assembly.frame(false, 0x0, b"l".to_vec()), Ok(Received::Pending)));
    match assembly.frame(true, 0x0, b"o".to_vec()) {
        Ok(Received::Message(Message::Text(text))) => assert_eq!(text, "Hello"),
        _ => panic!("the final continuation completes the message"),
    }
    assert!(assembly.fragment.is_none());
}

#[test]
fn control_frames_and_refusals() {
    let mut assembly = Assembly::new();
    assert!(matches!(assembly.frame(true, 0x8, vec![]), Ok(Received::Closed)));
    match assembly.frame(true, 0x9, vec![1, 2]) {
        Ok(Received::Message(Message::Ping(p))) => assert_eq!(p, vec![1, 2]),
        _ => panic!("a ping is a whole message"),
    }
    assert_eq!(assembly.frame(true, 0x2, vec![]).err(), Some("binary frames carry no part of the protocol"));
    assert_eq!(assembly.frame(true, 0x0, vec![]).err(), Some("a continuation frame with no message open"));
    assert_eq!(assembly.frame(true, 0x1, vec![0xff]).err(), Some("a text frame must carry utf-8"));
    assert_eq!(assembly.frame(true, 0x3, vec![]).err(), Some("an unexpected frame opcode"));
    assert!(matches!(assembly.frame(false, 0x1, vec![]), Ok(Received::Pending)));
    assert_eq!(assembly.frame(false, 0x1, vec![]).err(), Some("a new message opened while one is in flight"));
}

#[test]
fn a_frame_takes_the_shortest_length_form() {
    assert_eq!(frame_bytes(0x1, b"hi"), vec![0x81, 2, b'h', b'i']);
    let medium = vec![0u8; 300];
    let framed = frame_bytes(0x1, &medium);
    assert_eq!(&framed[..4], &[0x81, 126, 1, 44]);
    assert_eq!(framed.len(), 304);
    let large = vec![0u8; 70000];
    let framed = frame_bytes(0x2, &large);
    assert_eq!(&framed[..10], &[0x82, 127, 0, 0, 0, 0, 0, 1, 0x11, 0x70]);
}

#[test]
fn a_request_head_yields_its_method_path_and_key() {
    let request = parse_request("GET /ws HTTP/1.1\r\nHost: localhost\r\nsec-websocket-key:  abc== \r\n\r\n")
        .expect("a well-formed head");
    assert_eq!(request.method, "GET");
    assert_eq!(request.path, "/ws");
    assert_eq!(request.websocket_key.as_deref(), Some("abc=="));
    let plain = parse_request("GET / HTTP/1.1\r\nHost: localhost").unwrap();
    assert_eq!(plain.websocket_key, None);
}

#[test]
fn a_malformed_head_is_refused() {
    assert!(parse_request("GET /").is_err());
    assert!(parse_request("GET / FTP/1.0").is_err());
    assert!(parse_request("GET / HTTP/1.1\r\nno colon here").is_err());
}

#[test]
fn a_refused_head_names_the_line_at_fault() {
    assert_eq!(parse_request("GET /").err(), Some("malformed request line"));
    assert_eq!(parse_request("GET / FTP/1.0").err(), Some("malformed request line"));
    assert_eq!(parse_request("GET / HTTP/1.1\r\nno colon here").err(), Some("malformed header line"));
}

#[test]
fn request_line_words_part_at_unicode_whitespace() {
    for space in ['\u{85}', '\u{a0}', '\u{2009}', '\u{3000}'] {
        assert!(space.is_whitespace());
        let head = format!("GET{space}/ws{space}HTTP/1.1");
        let request = parse_request(&head).expect("the words part at whitespace");
        assert_eq!(request.method, "GET");
        assert_eq!(request.path, "/ws");
    }
    assert!(!'\u{200b}'.is_whitespace());
    assert_eq!(parse_request("GET\u{200b}/ws HTTP/1.1").err(), Some("malformed request line"));
}
