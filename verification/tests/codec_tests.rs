use udp_transfer::checksum::{calculate_checksum, verify};
use udp_transfer::control::{
    build_error_message, build_get_request, build_retransmit_request, build_retransmit_requests,
    parse_request, u32_to_decimal, Request,
};
use udp_transfer::frame::{DecodeError, UdpPacket};

fn sample_payload() -> Vec<u8> {
    (0u8..16).collect()
}

#[test]
fn checksum_of_empty_payload_is_all_ones() {
    assert_eq!(calculate_checksum(&[]), 0xFFFF);
}

#[test]
fn checksum_of_known_payloads() {
    assert_eq!(calculate_checksum(&sample_payload()), 0xC7BF);
    assert_eq!(calculate_checksum(&[1]), 0xFEFF);
    assert_eq!(calculate_checksum(b"abc"), 0x3B9D);
}

#[test]
fn checksum_zero_result_is_emitted_as_is() {
    assert_eq!(calculate_checksum(&[0xFF, 0xFF]), 0x0000);
}

#[test]
fn verify_accepts_own_checksum() {
    let p = sample_payload();
    let c = calculate_checksum(&p);
    assert!(verify(&p, c));
}

#[test]
fn verify_rejects_bit_flip() {
    let p = sample_payload();
    let c = calculate_checksum(&p);
    let mut corrupted = p.clone();
    corrupted[3] ^= 0x10;
    assert!(!verify(&corrupted, c));
}

#[test]
fn serialize_emits_network_byte_order() {
    let payload = sample_payload();
    let checksum = calculate_checksum(&payload);
    let length = (payload.len() + 8) as u16;
    let packet = UdpPacket::new(1, 8083, 9000, payload, length, checksum);
    let bytes = packet.serialize();
    let expected: Vec<u8> = vec![
        0, 0, 0, 1, 31, 147, 35, 40, 0, 24, 199, 191, 0, 1, 2, 3, 4, 5, 6, 7, 8, 9, 10, 11, 12,
        13, 14, 15,
    ];
    assert_eq!(bytes, expected);
}

#[test]
fn decode_of_encode_round_trips() {
    let payload = sample_payload();
    let checksum = UdpPacket::calculate_checksum(&payload);
    let length = (payload.len() + 8) as u16;
    let packet = UdpPacket::new(7, 8083, 9000, payload.clone(), length, checksum);
    let bytes = packet.serialize();
    let back = UdpPacket::decode(&bytes).expect("well-formed frame must decode");
    assert_eq!(back.seq_number, 7);
    assert_eq!(back.src_port, 8083);
    assert_eq!(back.dst_port, 9000);
    assert_eq!(back.length, length);
    assert_eq!(back.checksum, checksum);
    assert_eq!(back.data, payload);
}

#[test]
fn decode_rejects_short_datagram() {
    let bytes = vec![0u8; 11];
    assert!(matches!(UdpPacket::decode(&bytes), Err(DecodeError::TooShort)));
}

#[test]
fn decode_rejects_length_mismatch() {
    let payload = sample_payload();
    let checksum = calculate_checksum(&payload);
    let packet = UdpPacket::new(1, 8083, 9000, payload, 9, checksum);
    let bytes = packet.serialize();
    assert!(matches!(UdpPacket::decode(&bytes), Err(DecodeError::LengthMismatch)));
}

#[test]
fn decimal_rendering() {
    assert_eq!(u32_to_decimal(0), b"0".to_vec());
    assert_eq!(u32_to_decimal(7), b"7".to_vec());
    assert_eq!(u32_to_decimal(4060), b"4060".to_vec());
    assert_eq!(u32_to_decimal(u32::MAX), b"4294967295".to_vec());
}

#[test]
fn retransmit_request_text() {
    assert_eq!(build_retransmit_request(&vec![1]), b"RETRANSMIT 1".to_vec());
    assert_eq!(
        build_retransmit_request(&vec![3, 7, 250]),
        b"RETRANSMIT 3,7,250".to_vec()
    );
}

#[test]
fn retransmit_requests_batch_by_ten() {
    let missing: Vec<u32> = (1..=25).collect();
    let batches = build_retransmit_requests(&missing);
    assert_eq!(batches.len(), 3);
    assert_eq!(batches[0], b"RETRANSMIT 1,2,3,4,5,6,7,8,9,10".to_vec());
    assert_eq!(batches[1], b"RETRANSMIT 11,12,13,14,15,16,17,18,19,20".to_vec());
    assert_eq!(batches[2], b"RETRANSMIT 21,22,23,24,25".to_vec());
}

#[test]
fn no_missing_packets_no_requests() {
    let batches = build_retransmit_requests(&Vec::new());
    assert!(batches.is_empty());
}

#[test]
fn get_request_text() {
    assert_eq!(build_get_request(&b"a.bin".to_vec(), 0), b"GET /a.bin".to_vec());
    assert_eq!(
        build_get_request(&b"a.bin".to_vec(), 5),
        b"GET /a.bin?start=5".to_vec()
    );
}

#[test]
fn error_message_text() {
    assert_eq!(
        build_error_message(&b"file not found".to_vec()),
        b"ERROR: file not found".to_vec()
    );
}

#[test]
fn parse_get_request() {
    match parse_request(b"GET /a.bin") {
        Request::Get { filename, start_packet } => {
            assert_eq!(filename, b"a.bin".to_vec());
            assert_eq!(start_packet, 0);
        }
        _ => panic!("expected a transfer request"),
    }
}

#[test]
fn parse_get_request_with_start() {
    match parse_request(b"GET /a.bin?start=42") {
        Request::Get { filename, start_packet } => {
            assert_eq!(filename, b"a.bin".to_vec());
            assert_eq!(start_packet, 42);
        }
        _ => panic!("expected a transfer request"),
    }
}

#[test]
fn parse_get_with_unknown_query_keeps_filename_only() {
    match parse_request(b"GET /a.bin?x=1") {
        Request::Get { filename, start_packet } => {
            assert_eq!(filename, b"a.bin".to_vec());
            assert_eq!(start_packet, 0);
        }
        _ => panic!("expected a transfer request"),
    }
}

#[test]
fn parse_get_without_filename_is_malformed() {
    assert!(matches!(parse_request(b"GET /"), Request::Malformed));
    assert!(matches!(parse_request(b"GET /?start=3"), Request::Malformed));
}

#[test]
fn parse_retransmit_request_skips_bad_tokens() {
    match parse_request(b"RETRANSMIT 1,x,3,,4294967296,12") {
        Request::Retransmit { seqs } => {
            assert_eq!(seqs, vec![1, 3, 12]);
        }
        _ => panic!("expected a retransmission request"),
    }
}

#[test]
fn parse_retransmit_of_built_request_round_trips() {
    let seqs: Vec<u32> = vec![2, 4, 6, 8, 10, 12, 14, 16, 18, 20];
    let text = build_retransmit_request(&seqs);
    match parse_request(&text) {
        Request::Retransmit { seqs: parsed } => assert_eq!(parsed, seqs),
        _ => panic!("expected a retransmission request"),
    }
}

#[test]
fn parse_unknown_text_is_ignored() {
    assert!(matches!(parse_request(b"HELLO"), Request::Unknown));
    assert!(matches!(parse_request(b""), Request::Unknown));
    assert!(matches!(parse_request(b"GET a.bin"), Request::Unknown));
}
