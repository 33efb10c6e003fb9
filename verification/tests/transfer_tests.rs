use udp_transfer::control::{build_retransmit_requests, parse_request, Request};
use udp_transfer::frame::UdpPacket;
use udp_transfer::receiver::{
    calculate_expected_number_of_packets, identify_missing_packets, DatagramOutcome, Receiver,
};
use udp_transfer::sender::{
    begin_transfer, get_packet_for_sequence, handle_retransmission, RetransmissionCache,
};
use udp_transfer::{END_OF_TRANSMISSION_SEQ_NUM, MAX_PAYLOAD};

const SRC_PORT: u16 = 8083;
const DST_PORT: u16 = 9000;

fn sample_file(len: usize) -> Vec<u8> {
    (0..len).map(|i| (i % 251) as u8).collect()
}

fn deliver(receiver: &mut Receiver, packet: &UdpPacket) -> DatagramOutcome {
    let bytes = packet.serialize();
    receiver.process_datagram(&bytes)
}

fn run_retransmission_round(
    receiver: &mut Receiver,
    cache: &RetransmissionCache,
) -> Vec<DatagramOutcome> {
    let missing = receiver.missing_packets();
    let requests = build_retransmit_requests(&missing);
    let mut outcomes = Vec::new();
    for request in &requests {
        match parse_request(request) {
            Request::Retransmit { seqs } => {
                for packet in handle_retransmission(cache, &seqs, SRC_PORT, DST_PORT) {
                    outcomes.push(deliver(receiver, &packet));
                }
            }
            _ => panic!("receiver built a request the sender does not read back"),
        }
    }
    outcomes
}

#[test]
fn happy_path_sixteen_byte_file() {
    let data = sample_file(16);
    let mut cache = RetransmissionCache::new();
    let frames = begin_transfer(&mut cache, SRC_PORT, DST_PORT, data.clone());
    // manifest + 1 data frame + end of transmission
    assert_eq!(frames.len(), 3);
    assert_eq!(frames[0].seq_number, 0);
    assert_eq!(frames[0].data, vec![0, 0, 0, 2]);
    assert_eq!(frames[1].seq_number, 1);
    assert_eq!(frames[1].data, data);
    assert_eq!(frames[1].checksum, 0xC7BF);
    assert_eq!(frames[2].seq_number, END_OF_TRANSMISSION_SEQ_NUM);
    assert_eq!(frames[2].data.len(), 0);

    let mut receiver = Receiver::new(false, Vec::new());
    assert_eq!(deliver(&mut receiver, &frames[0]), DatagramOutcome::ManifestReceived);
    assert_eq!(deliver(&mut receiver, &frames[1]), DatagramOutcome::Stored);
    assert_eq!(deliver(&mut receiver, &frames[2]), DatagramOutcome::EndOfTransmission);
    assert!(receiver.missing_packets().is_empty());
    assert_eq!(receiver.assemble(), data);
}

#[test]
fn empty_file_manifest_counts_one() {
    let mut cache = RetransmissionCache::new();
    let frames = begin_transfer(&mut cache, SRC_PORT, DST_PORT, Vec::new());
    // manifest + end of transmission, no data frames
    assert_eq!(frames.len(), 2);
    assert_eq!(frames[0].seq_number, 0);
    assert_eq!(frames[0].data, vec![0, 0, 0, 1]);
    assert_eq!(frames[1].seq_number, END_OF_TRANSMISSION_SEQ_NUM);

    let mut receiver = Receiver::new(false, Vec::new());
    deliver(&mut receiver, &frames[0]);
    deliver(&mut receiver, &frames[1]);
    assert!(receiver.missing_packets().is_empty());
    assert_eq!(receiver.assemble(), Vec::<u8>::new());
}

#[test]
fn exact_payload_file_fills_one_data_frame() {
    let data = sample_file(MAX_PAYLOAD);
    let frames = UdpPacket::prepare_packets(SRC_PORT, DST_PORT, data.clone());
    assert_eq!(frames.len(), 2);
    assert_eq!(frames[1].data.len(), MAX_PAYLOAD);
    assert_eq!(frames[1].length, (MAX_PAYLOAD + 8) as u16);
}

#[test]
fn one_byte_over_payload_splits_in_two() {
    let data = sample_file(MAX_PAYLOAD + 1);
    let frames = UdpPacket::prepare_packets(SRC_PORT, DST_PORT, data.clone());
    assert_eq!(frames.len(), 3);
    assert_eq!(frames[1].data.len(), MAX_PAYLOAD);
    assert_eq!(frames[2].data.len(), 1);
    assert_eq!(frames[2].data[0], data[MAX_PAYLOAD]);
}

#[test]
fn reserved_seqs_never_carry_data() {
    let data = sample_file(3 * MAX_PAYLOAD + 5);
    let frames = UdpPacket::prepare_packets(SRC_PORT, DST_PORT, data);
    for (i, frame) in frames.iter().enumerate() {
        if i > 0 {
            assert_ne!(frame.seq_number, 0);
            assert_ne!(frame.seq_number, END_OF_TRANSMISSION_SEQ_NUM);
        }
    }
}

#[test]
fn lost_data_frame_is_retransmitted() {
    let data = sample_file(16);
    let mut cache = RetransmissionCache::new();
    let frames = begin_transfer(&mut cache, SRC_PORT, DST_PORT, data.clone());

    let mut receiver = Receiver::new(true, vec![1]);
    assert_eq!(deliver(&mut receiver, &frames[0]), DatagramOutcome::ManifestReceived);
    assert_eq!(deliver(&mut receiver, &frames[1]), DatagramOutcome::Dropped);
    assert_eq!(deliver(&mut receiver, &frames[2]), DatagramOutcome::EndOfTransmission);
    assert_eq!(receiver.missing_packets(), vec![1]);

    let missing = receiver.missing_packets();
    let requests = build_retransmit_requests(&missing);
    assert_eq!(requests.len(), 1);
    assert_eq!(requests[0], b"RETRANSMIT 1".to_vec());

    let outcomes = run_retransmission_round(&mut receiver, &cache);
    assert_eq!(
        outcomes,
        vec![DatagramOutcome::Stored, DatagramOutcome::EndOfTransmission]
    );
    assert!(receiver.missing_packets().is_empty());
    assert_eq!(receiver.assemble(), data);
}

#[test]
fn corrupted_frame_is_discarded_and_rerequested() {
    let data = sample_file(16);
    let mut cache = RetransmissionCache::new();
    let frames = begin_transfer(&mut cache, SRC_PORT, DST_PORT, data.clone());

    let mut receiver = Receiver::new(false, Vec::new());
    deliver(&mut receiver, &frames[0]);
    let mut corrupted = frames[1].serialize();
    corrupted[20] ^= 0x01; // flip one payload bit in flight
    assert_eq!(
        receiver.process_datagram(&corrupted),
        DatagramOutcome::ChecksumMismatch
    );
    deliver(&mut receiver, &frames[2]);
    assert_eq!(receiver.missing_packets(), vec![1]);

    let outcomes = run_retransmission_round(&mut receiver, &cache);
    assert_eq!(
        outcomes,
        vec![DatagramOutcome::Stored, DatagramOutcome::EndOfTransmission]
    );
    assert_eq!(receiver.assemble(), data);
}

#[test]
fn server_error_aborts_transfer() {
    match parse_request(b"GET /nope.bin") {
        Request::Get { filename, start_packet } => {
            assert_eq!(filename, b"nope.bin".to_vec());
            assert_eq!(start_packet, 0);
        }
        _ => panic!("expected a transfer request"),
    }
    // the sender finds no such file and reports it
    let reply = udp_transfer::control::build_error_message(&b"file not found".to_vec());
    assert_eq!(reply, b"ERROR: file not found".to_vec());

    let mut receiver = Receiver::new(false, Vec::new());
    assert_eq!(receiver.process_datagram(&reply), DatagramOutcome::ServerError);
    assert_eq!(receiver.server_error, Some(b"ERROR: file not found".to_vec()));
}

#[test]
fn first_pass_loss_of_every_data_frame_takes_three_batches() {
    // 25 data frames; the first pass delivers only manifest and
    // end-of-transmission.
    let data = sample_file(24 * MAX_PAYLOAD + 100);
    let mut cache = RetransmissionCache::new();
    let frames = begin_transfer(&mut cache, SRC_PORT, DST_PORT, data.clone());
    assert_eq!(frames.len(), 27);

    let mut receiver = Receiver::new(false, Vec::new());
    deliver(&mut receiver, &frames[0]);
    deliver(&mut receiver, &frames[26]);
    let missing = receiver.missing_packets();
    assert_eq!(missing, (1..=25).collect::<Vec<u32>>());
    let requests = build_retransmit_requests(&missing);
    assert_eq!(requests.len(), 3);

    let outcomes = run_retransmission_round(&mut receiver, &cache);
    // one batch of frames per request, each batch followed by one
    // end-of-transmission
    assert_eq!(
        outcomes.iter().filter(|o| **o == DatagramOutcome::Stored).count(),
        25
    );
    assert_eq!(
        outcomes
            .iter()
            .filter(|o| **o == DatagramOutcome::EndOfTransmission)
            .count(),
        3
    );
    assert!(receiver.missing_packets().is_empty());
    assert_eq!(receiver.assemble(), data);
}

#[test]
fn even_seq_losses_are_all_recovered() {
    let data = sample_file(24 * MAX_PAYLOAD + 100);
    let mut cache = RetransmissionCache::new();
    let frames = begin_transfer(&mut cache, SRC_PORT, DST_PORT, data.clone());
    let loss: Vec<u32> = (1..=25).filter(|s| s % 2 == 0).collect();

    let mut receiver = Receiver::new(true, loss.clone());
    for frame in &frames {
        deliver(&mut receiver, frame);
    }
    assert_eq!(receiver.missing_packets(), loss);

    run_retransmission_round(&mut receiver, &cache);
    assert!(receiver.missing_packets().is_empty());
    assert_eq!(receiver.assemble(), data);
}

#[test]
fn exhaustion_after_five_fruitless_timeouts() {
    let mut receiver = Receiver::new(false, Vec::new());
    for _ in 0..4 {
        receiver.record_timeout(false);
        assert!(!receiver.exhausted());
    }
    receiver.record_timeout(true); // progress does not spend an attempt
    assert!(!receiver.exhausted());
    receiver.record_timeout(false);
    assert!(receiver.exhausted());
}

#[test]
fn replayed_frame_leaves_buffer_unchanged() {
    let data = sample_file(16);
    let mut cache = RetransmissionCache::new();
    let frames = begin_transfer(&mut cache, SRC_PORT, DST_PORT, data.clone());

    let mut receiver = Receiver::new(false, Vec::new());
    deliver(&mut receiver, &frames[0]);
    assert_eq!(deliver(&mut receiver, &frames[1]), DatagramOutcome::Stored);
    assert_eq!(deliver(&mut receiver, &frames[1]), DatagramOutcome::Stored);
    assert_eq!(receiver.received, vec![1]);
    assert_eq!(receiver.assemble(), data);
}

#[test]
fn arrival_order_does_not_change_the_file() {
    let data = sample_file(2 * MAX_PAYLOAD + 7);
    let mut cache = RetransmissionCache::new();
    let frames = begin_transfer(&mut cache, SRC_PORT, DST_PORT, data.clone());
    assert_eq!(frames.len(), 5);

    let mut forward = Receiver::new(false, Vec::new());
    for i in [0usize, 1, 2, 3] {
        deliver(&mut forward, &frames[i]);
    }
    let mut backward = Receiver::new(false, Vec::new());
    for i in [3usize, 2, 1, 0] {
        deliver(&mut backward, &frames[i]);
    }
    assert_eq!(forward.assemble(), backward.assemble());
    assert_eq!(forward.assemble(), data);
}

#[test]
fn retransmitted_frames_are_byte_identical() {
    let data = sample_file(3 * MAX_PAYLOAD);
    let mut cache = RetransmissionCache::new();
    let frames = begin_transfer(&mut cache, SRC_PORT, DST_PORT, data);

    for seq in 1..=3u32 {
        let cached = get_packet_for_sequence(&cache, seq).expect("frame must be cached");
        assert_eq!(cached.serialize(), frames[seq as usize].serialize());
    }
    assert!(get_packet_for_sequence(&cache, 99).is_none());

    let resent = handle_retransmission(&cache, &vec![2, 99, 3], SRC_PORT, DST_PORT);
    // seq 99 was never cached: skipped; one end-of-transmission follows
    assert_eq!(resent.len(), 3);
    assert_eq!(resent[0].serialize(), frames[2].serialize());
    assert_eq!(resent[1].serialize(), frames[3].serialize());
    assert_eq!(resent[2].seq_number, END_OF_TRANSMISSION_SEQ_NUM);
}

#[test]
fn retransmission_of_nothing_found_sends_nothing() {
    let mut cache = RetransmissionCache::new();
    let frames = begin_transfer(&mut cache, SRC_PORT, DST_PORT, sample_file(10));
    assert_eq!(frames.len(), 3);
    let resent = handle_retransmission(&cache, &vec![5, 6], SRC_PORT, DST_PORT);
    assert!(resent.is_empty());
}

#[test]
fn new_transfer_replaces_cache_state() {
    let mut cache = RetransmissionCache::new();
    begin_transfer(&mut cache, SRC_PORT, DST_PORT, sample_file(3 * MAX_PAYLOAD));
    assert!(get_packet_for_sequence(&cache, 3).is_some());
    begin_transfer(&mut cache, SRC_PORT, DST_PORT, sample_file(4));
    assert!(get_packet_for_sequence(&cache, 3).is_none());
    assert!(get_packet_for_sequence(&cache, 1).is_some());
}

#[test]
fn expected_count_falls_back_to_highest_seq() {
    assert_eq!(calculate_expected_number_of_packets(&Vec::new()), 0);
    assert_eq!(calculate_expected_number_of_packets(&vec![3, 1, 7, 2]), 8);
}

#[test]
fn missing_packets_are_the_gaps() {
    let received = vec![1, 3, 6];
    assert_eq!(identify_missing_packets(&received, 7), vec![0, 2, 4, 5]);
    assert_eq!(identify_missing_packets(&received, 0), Vec::<u32>::new());
}

#[test]
fn manifest_lost_receiver_still_assembles_from_fallback() {
    let data = sample_file(2 * MAX_PAYLOAD + 7);
    let mut cache = RetransmissionCache::new();
    let frames = begin_transfer(&mut cache, SRC_PORT, DST_PORT, data.clone());

    let mut receiver = Receiver::new(false, Vec::new());
    // manifest never arrives; data frames and the sentinel do
    for i in [1usize, 2, 3, 4] {
        deliver(&mut receiver, &frames[i]);
    }
    assert!(receiver.missing_packets().is_empty());
    assert_eq!(receiver.assemble(), data);
}

#[test]
fn data_seq_beyond_manifest_is_discarded() {
    let data = sample_file(16);
    let mut cache = RetransmissionCache::new();
    let frames = begin_transfer(&mut cache, SRC_PORT, DST_PORT, data);

    let mut receiver = Receiver::new(false, Vec::new());
    deliver(&mut receiver, &frames[0]); // manifest: total = 2
    let payload = vec![9u8; 4];
    let checksum = UdpPacket::calculate_checksum(&payload);
    let stray = UdpPacket::new(7, SRC_PORT, DST_PORT, payload, 12, checksum);
    assert_eq!(deliver(&mut receiver, &stray), DatagramOutcome::SeqOutOfRange);
    assert_eq!(receiver.received, Vec::<u32>::new());
}

#[test]
fn simulated_loss_drops_each_seq_exactly_once() {
    let data = sample_file(16);
    let mut cache = RetransmissionCache::new();
    let frames = begin_transfer(&mut cache, SRC_PORT, DST_PORT, data.clone());

    let mut receiver = Receiver::new(true, vec![1]);
    assert_eq!(deliver(&mut receiver, &frames[1]), DatagramOutcome::Dropped);
    assert_eq!(deliver(&mut receiver, &frames[1]), DatagramOutcome::Stored);
    assert_eq!(receiver.received, vec![1]);
}

#[test]
fn bad_length_field_is_discarded() {
    let payload = sample_file(4);
    let checksum = UdpPacket::calculate_checksum(&payload);
    // length claims 8 + 5 payload bytes, but only 4 follow
    let framed_wrong = UdpPacket::new(1, SRC_PORT, DST_PORT, payload, 13, checksum);
    let mut receiver = Receiver::new(false, Vec::new());
    assert_eq!(
        deliver(&mut receiver, &framed_wrong),
        DatagramOutcome::LengthMismatch
    );
    assert_eq!(receiver.received, Vec::<u32>::new());
}

#[test]
fn short_datagram_is_ignored() {
    let mut receiver = Receiver::new(false, Vec::new());
    assert_eq!(receiver.process_datagram(&[0u8; 5]), DatagramOutcome::TooShort);
    assert_eq!(receiver.received, Vec::<u32>::new());
}
