//! Receiver-side logic: classifying inbound datagrams, the reassembly
//! buffer, gap detection, retransmission batching, and the final
//! write-out order.  The socket loop stays outside; it feeds datagrams
//! in and performs the sends and timeouts these functions call for.

use std::collections::HashMap;
use vstd::prelude::*;

use crate::checksum::checksum_matches;
use crate::frame::be16_value;
use crate::frame::be32_value;
use crate::END_OF_TRANSMISSION_SEQ_NUM;
use crate::HEADER_LEN;
use crate::MAX_ATTEMPTS;

verus! {

broadcast use vstd::std_specs::hash::group_hash_axioms;

/// The sequence-number field of a datagram.
pub open spec fn spec_seq_of(b: Seq<u8>) -> u32
    recommends
        b.len() >= 4,
{
    be32_value(b.subrange(0, 4))
}

/// The checksum field of a datagram.
pub open spec fn spec_checksum_of(b: Seq<u8>) -> u16
    recommends
        b.len() >= HEADER_LEN,
{
    be16_value(b.subrange(10, 12))
}

/// The length field of a datagram.
pub open spec fn spec_length_of(b: Seq<u8>) -> u16
    recommends
        b.len() >= HEADER_LEN,
{
    be16_value(b.subrange(8, 10))
}

/// The payload of a datagram: everything past the header.
pub open spec fn spec_payload_of(b: Seq<u8>) -> Seq<u8>
    recommends
        b.len() >= HEADER_LEN,
{
    b.skip(HEADER_LEN as int)
}

/// The ASCII bytes of `ERROR`.
pub open spec fn spec_error_prefix() -> Seq<u8> {
    seq![0x45u8, 0x52u8, 0x52u8, 0x4fu8, 0x52u8]
}

/// Whether a datagram is a server error report: text beginning with
/// the ASCII word `ERROR`.
pub open spec fn spec_is_error_text(b: Seq<u8>) -> bool {
    b.len() >= 5 && b.subrange(0, 5) == spec_error_prefix()
}

/// What the receiver decided about one inbound datagram.
#[derive(PartialEq, Eq, Structural, Clone, Copy, Debug)]
pub enum DatagramOutcome {
    /// Too short to carry the fields the receiver must read; discarded
    /// silently.
    TooShort,
    /// The end-of-transmission sentinel: stop reading this batch and
    /// evaluate.
    EndOfTransmission,
    /// The manifest: the authoritative frame count was recorded.
    ManifestReceived,
    /// A server error report; the transfer is to be aborted.
    ServerError,
    /// Dropped once by the loss simulation; its next delivery will be
    /// accepted.
    Dropped,
    /// The length field does not account for the payload: a framing
    /// error, discarded silently.
    LengthMismatch,
    /// The checksum field does not cover the payload; discarded, the
    /// sequence number stays missing.
    ChecksumMismatch,
    /// A data sequence number at or beyond the manifest's count; a
    /// protocol violation, discarded.
    SeqOutOfRange,
    /// A sound data frame; its payload is now in the reassembly
    /// buffer.
    Stored,
}

/// Receiver state for one transfer: the reassembly buffer, the
/// manifest's count once seen, the loss-simulation set, the attempt
/// counter, and a server error report once seen.
pub struct Receiver {
    /// Reassembly buffer: payload bytes keyed by sequence number.
    pub payloads: HashMap<u32, Vec<u8>>,
    /// The distinct data sequence numbers received, in arrival order.
    pub received: Vec<u32>,
    /// The manifest's total frame count; meaningful when `has_total`.
    pub total_packets: u32,
    /// Whether a manifest has been received.
    pub has_total: bool,
    /// The data sequence number stored most recently.
    pub last_received_packet: u32,
    /// Whether artificial loss is simulated.
    pub simulate_loss: bool,
    /// Sequence numbers still to be dropped once on delivery.
    pub loss_packets: Vec<u32>,
    /// Consecutive no-progress timeouts so far.
    pub attempts: u32,
    /// The server's error text, once one arrived.
    pub server_error: Option<Vec<u8>>,
}

impl Receiver {
    /// The reassembly buffer as a map of byte sequences.
    pub open spec fn buffer(self) -> Map<u32, Seq<u8>> {
        self.payloads@.map_values(|v: Vec<u8>| v@)
    }

    /// Structural soundness: `received` lists exactly the buffer's
    /// keys, without duplicates, and only genuine data sequence
    /// numbers are buffered.
    pub open spec fn wf(self) -> bool {
        &&& forall|i: int, j: int|
            0 <= i < j < self.received@.len() ==> #[trigger] self.received@[i] != #[trigger] self.received@[j]
        &&& forall|i: int|
            0 <= i < self.received@.len() ==> self.buffer().contains_key(
                #[trigger] self.received@[i],
            )
        &&& forall|k: u32| #[trigger]
            self.buffer().contains_key(k) ==> self.received@.contains(k)
        &&& forall|i: int|
            0 <= i < self.received@.len() ==> 0 < #[trigger] self.received@[i]
                < END_OF_TRANSMISSION_SEQ_NUM
    }

    /// How the receiver classifies a datagram, given its current
    /// state: the order of the checks below is the protocol's.
    pub open spec fn spec_classify(self, b: Seq<u8>) -> DatagramOutcome {
        let s = spec_seq_of(b);
        if b.len() < HEADER_LEN {
            DatagramOutcome::TooShort
        } else if s == END_OF_TRANSMISSION_SEQ_NUM {
            DatagramOutcome::EndOfTransmission
        } else if s == 0 {
            if b.len() < HEADER_LEN + 4 {
                DatagramOutcome::TooShort
            } else {
                DatagramOutcome::ManifestReceived
            }
        } else if spec_is_error_text(b) {
            DatagramOutcome::ServerError
        } else if spec_length_of(b) != b.len() - 4 {
            DatagramOutcome::LengthMismatch
        } else if self.simulate_loss && self.loss_packets@.contains(s) {
            DatagramOutcome::Dropped
        } else if self.has_total && s >= self.total_packets {
            DatagramOutcome::SeqOutOfRange
        } else if !checksum_matches(spec_payload_of(b), spec_checksum_of(b)) {
            DatagramOutcome::ChecksumMismatch
        } else {
            DatagramOutcome::Stored
        }
    }

    /// A fresh receiver: empty buffer, no manifest, the given
    /// loss-simulation set, no attempts spent.
    pub fn new(simulate_loss: bool, loss_packets: Vec<u32>) -> (r: Receiver)
        ensures
            r.buffer() == Map::<u32, Seq<u8>>::empty(),
            r.received@ == Seq::<u32>::empty(),
            !r.has_total,
            r.total_packets == 0,
            r.last_received_packet == 0,
            r.simulate_loss == simulate_loss,
            r.loss_packets@ == loss_packets@,
            r.attempts == 0,
            r.server_error is None,
            r.wf(),
    {
        let payloads: HashMap<u32, Vec<u8>> = HashMap::new();
        let r = Receiver {
            payloads,
            received: Vec::new(),
            total_packets: 0,
            has_total: false,
            last_received_packet: 0,
            simulate_loss,
            loss_packets,
            attempts: 0,
            server_error: None,
        };
        proof {
            assert(r.buffer() =~= Map::<u32, Seq<u8>>::empty());
        }
        r
    }

    /// Takes one inbound datagram through the protocol's checks, in
    /// order: size, end-of-transmission, manifest, server error,
    /// length-field framing, simulated loss, manifest range, checksum.
    /// A datagram that passes them all has its payload stored under
    /// its sequence number.  The returned outcome says which check
    /// decided, and the clauses below say exactly how the state moved.
    pub fn process_datagram(&mut self, buf: &[u8]) -> (r: DatagramOutcome)
        requires
            buf@.len() <= 0xFFFF,
        ensures
            r == old(self).spec_classify(buf@),
            ({
                let s = spec_seq_of(buf@);
                let p = spec_payload_of(buf@);
                match r {
                    DatagramOutcome::ManifestReceived => {
                        &&& final(self).has_total
                        &&& final(self).total_packets == be32_value(buf@.subrange(12, 16))
                        &&& final(self).payloads == old(self).payloads
                        &&& final(self).received == old(self).received
                        &&& final(self).last_received_packet == old(self).last_received_packet
                        &&& final(self).simulate_loss == old(self).simulate_loss
                        &&& final(self).loss_packets == old(self).loss_packets
                        &&& final(self).attempts == old(self).attempts
                        &&& final(self).server_error == old(self).server_error
                    },
                    DatagramOutcome::ServerError => {
                        &&& final(self).server_error matches Some(e) && e@ == buf@
                        &&& final(self).payloads == old(self).payloads
                        &&& final(self).received == old(self).received
                        &&& final(self).last_received_packet == old(self).last_received_packet
                        &&& final(self).simulate_loss == old(self).simulate_loss
                        &&& final(self).loss_packets == old(self).loss_packets
                        &&& final(self).total_packets == old(self).total_packets
                        &&& final(self).has_total == old(self).has_total
                        &&& final(self).attempts == old(self).attempts
                    },
                    DatagramOutcome::Dropped => {
                        &&& final(self).loss_packets@ == old(self).loss_packets@.filter(
                            |x: u32| x != s,
                        )
                        &&& final(self).payloads == old(self).payloads
                        &&& final(self).received == old(self).received
                        &&& final(self).last_received_packet == old(self).last_received_packet
                        &&& final(self).simulate_loss == old(self).simulate_loss
                        &&& final(self).total_packets == old(self).total_packets
                        &&& final(self).has_total == old(self).has_total
                        &&& final(self).attempts == old(self).attempts
                        &&& final(self).server_error == old(self).server_error
                    },
                    DatagramOutcome::Stored => {
                        &&& final(self).buffer() == old(self).buffer().insert(s, p)
                        &&& final(self).received@ == if old(self).buffer().contains_key(s) {
                            old(self).received@
                        } else {
                            old(self).received@.push(s)
                        }
                        &&& final(self).last_received_packet == s
                        &&& final(self).simulate_loss == old(self).simulate_loss
                        &&& final(self).loss_packets == old(self).loss_packets
                        &&& final(self).total_packets == old(self).total_packets
                        &&& final(self).has_total == old(self).has_total
                        &&& final(self).attempts == old(self).attempts
                        &&& final(self).server_error == old(self).server_error
                    },
                    _ => *final(self) == *old(self),
                }
            }),
            old(self).wf() ==> final(self).wf(),
    {
        if buf.len() < HEADER_LEN {
            return DatagramOutcome::TooShort;
        }
        let s = crate::frame::read_be32(buf, 0);
        proof {
            assert(s == spec_seq_of(buf@));
        }
        if s == END_OF_TRANSMISSION_SEQ_NUM {
            return DatagramOutcome::EndOfTransmission;
        }
        if s == 0 {
            if buf.len() < HEADER_LEN + 4 {
                return DatagramOutcome::TooShort;
            }
            let total = crate::frame::read_be32(buf, 12);
            self.total_packets = total;
            self.has_total = true;
            proof {
                assert(self.buffer() == old(self).buffer());
                assert(self.received@ == old(self).received@);
                assert(old(self).wf() ==> self.wf());
            }
            return DatagramOutcome::ManifestReceived;
        }
        if is_error_text(buf) {
            self.server_error = Some(vstd::slice::slice_to_vec(buf));
            proof {
                assert(self.buffer() == old(self).buffer());
                assert(self.received@ == old(self).received@);
                assert(old(self).wf() ==> self.wf());
            }
            return DatagramOutcome::ServerError;
        }
        let length_field = crate::frame::read_be16(buf, 8);
        if (length_field as usize) != buf.len() - 4 {
            proof {
                assert(length_field == spec_length_of(buf@));
            }
            return DatagramOutcome::LengthMismatch;
        }
        if self.simulate_loss && vec_contains(&self.loss_packets, s) {
            let filtered = vec_remove_value(&self.loss_packets, s);
            self.loss_packets = filtered;
            proof {
                assert(self.buffer() == old(self).buffer());
                assert(self.received@ == old(self).received@);
                assert(old(self).wf() ==> self.wf());
            }
            return DatagramOutcome::Dropped;
        }
        if self.has_total && s >= self.total_packets {
            return DatagramOutcome::SeqOutOfRange;
        }
        let wire_checksum = crate::frame::read_be16(buf, 10);
        let payload: Vec<u8> = vstd::slice::slice_to_vec(
            vstd::slice::slice_subrange(buf, HEADER_LEN, buf.len()),
        );
        proof {
            assert(payload@ == spec_payload_of(buf@));
            assert(wire_checksum == spec_checksum_of(buf@));
        }
        if !crate::checksum::verify(payload.as_slice(), wire_checksum) {
            return DatagramOutcome::ChecksumMismatch;
        }
        let ghost prev = *self;
        let already = self.payloads.contains_key(&s);
        self.payloads.insert(s, payload);
        if !already {
            self.received.push(s);
        }
        self.last_received_packet = s;
        proof {
            assert(self.buffer() =~= prev.buffer().insert(s, spec_payload_of(buf@)));
            assert(prev.wf() ==> self.wf()) by {
                if prev.wf() {
                    assert(forall|k: u32| #[trigger]
                        self.buffer().contains_key(k) ==> k == s || prev.buffer().contains_key(k));
                    if !prev.buffer().contains_key(s) {
                        assert(forall|i: int|
                            0 <= i < prev.received@.len() ==> #[trigger] self.received@[i]
                                == prev.received@[i]);
                        assert(self.received@[prev.received@.len() as int] == s);
                        assert(forall|k: u32|
                            prev.received@.contains(k) ==> #[trigger] self.received@.contains(k))
                            by {
                            assert forall|k: u32|
                                prev.received@.contains(k) implies #[trigger] self.received@.contains(
                                k,
                            ) by {
                                let j = choose|j: int|
                                    0 <= j < prev.received@.len() && prev.received@[j] == k;
                                assert(self.received@[j] == k);
                            }
                        }
                        assert(self.received@.contains(s));
                    }
                }
            }
        }
        DatagramOutcome::Stored
    }
}

/// The largest element of a sequence of sequence numbers; zero when
/// the sequence is empty.
pub open spec fn spec_seq_max(s: Seq<u32>) -> u32
    decreases s.len(),
{
    if s.len() == 0 {
        0
    } else {
        let m = spec_seq_max(s.drop_last());
        if s.last() > m {
            s.last()
        } else {
            m
        }
    }
}

pub proof fn lemma_seq_max_props(s: Seq<u32>)
    requires
        s.len() > 0,
    ensures
        s.contains(spec_seq_max(s)),
        forall|i: int| 0 <= i < s.len() ==> #[trigger] s[i] <= spec_seq_max(s),
    decreases s.len(),
{
    if s.len() == 1 {
        assert(s[0] == s.last());
    } else {
        lemma_seq_max_props(s.drop_last());
        let m = spec_seq_max(s.drop_last());
        if s.last() > m {
            assert(s[s.len() - 1] == s.last());
        } else {
            let j = choose|j: int| 0 <= j < s.drop_last().len() && s.drop_last()[j] == m;
            assert(s[j] == m);
        }
        assert(forall|i: int|
            0 <= i < s.len() - 1 ==> #[trigger] s[i] == s.drop_last()[i]);
    }
}

impl Receiver {
    /// How many frames the transfer is expected to comprise: the
    /// manifest's count when one arrived, else one past the largest
    /// data sequence number seen — the fallback for a lost manifest.
    pub open spec fn spec_expected(self) -> int {
        if self.has_total {
            self.total_packets as int
        } else if self.received@.len() == 0 {
            0
        } else {
            spec_seq_max(self.received@) + 1
        }
    }

    /// The expected frame count of the transfer so far.
    pub fn expected_packets(&self) -> (r: u32)
        requires
            self.wf(),
        ensures
            r == self.spec_expected(),
    {
        if self.has_total {
            self.total_packets
        } else {
            proof {
                if self.received@.len() > 0 {
                    lemma_seq_max_props(self.received@);
                }
            }
            calculate_expected_number_of_packets(&self.received)
        }
    }

    /// The data sequence numbers still owed: everything in
    /// `1 .. expected` that the buffer does not hold, in ascending
    /// order.
    pub fn missing_packets(&self) -> (r: Vec<u32>)
        requires
            self.wf(),
        ensures
            forall|i: int, j: int| 0 <= i < j < r@.len() ==> #[trigger] r@[i] < #[trigger] r@[j],
            forall|n: u32| #[trigger]
                r@.contains(n) <==> (1 <= n < self.spec_expected() && !self.received@.contains(n)),
    {
        let expected = self.expected_packets();
        missing_in_range(&self.received, 1, expected)
    }

    /// Spends one attempt: a receive pass ended in a timeout, and only
    /// a pass that brought nothing new counts against the bound.
    pub fn record_timeout(&mut self, new_frames: bool)
        requires
            old(self).attempts < 0xFFFF_FFFF,
        ensures
            final(self).attempts == if new_frames {
                old(self).attempts as int
            } else {
                old(self).attempts + 1
            },
            final(self).payloads == old(self).payloads,
            final(self).received == old(self).received,
            final(self).total_packets == old(self).total_packets,
            final(self).has_total == old(self).has_total,
            final(self).last_received_packet == old(self).last_received_packet,
            final(self).simulate_loss == old(self).simulate_loss,
            final(self).loss_packets == old(self).loss_packets,
            final(self).server_error == old(self).server_error,
            old(self).wf() ==> final(self).wf(),
    {
        if !new_frames {
            self.attempts = self.attempts + 1;
        }
        proof {
            assert(self.buffer() == old(self).buffer());
            assert(old(self).wf() ==> self.wf());
        }
    }

    /// Whether the attempt bound is spent and the transfer must be
    /// abandoned.
    pub fn exhausted(&self) -> (r: bool)
        ensures
            r == (self.attempts >= MAX_ATTEMPTS),
    {
        self.attempts >= MAX_ATTEMPTS
    }

    /// The reassembled file: the buffered payloads of sequence numbers
    /// `1 .. expected`, concatenated in ascending order with nothing
    /// between them; a sequence number without a buffered payload
    /// contributes nothing.
    pub fn assemble(&self) -> (r: Vec<u8>)
        requires
            self.wf(),
        ensures
            r@ == spec_concat_payloads(self.buffer(), self.spec_expected()),
    {
        let expected = self.expected_packets();
        let mut out: Vec<u8> = Vec::new();
        let mut i: u32 = 1;
        proof {
            assert(out@ =~= spec_concat_payloads(self.buffer(), 1));
        }
        if expected == 0 {
            return out;
        }
        while i < expected
            invariant
                1 <= i <= expected,
                expected == self.spec_expected(),
                out@ == spec_concat_payloads(self.buffer(), i as int),
            decreases expected - i,
        {
            match self.payloads.get(&i) {
                Some(v) => {
                    let mut chunk = vstd::slice::slice_to_vec(v.as_slice());
                    out.append(&mut chunk);
                    proof {
                        assert(self.buffer().contains_key(i) && self.buffer()[i] == v@);
                    }
                },
                None => {
                    proof {
                        assert(!self.buffer().contains_key(i));
                        assert(out@ + Seq::<u8>::empty() =~= out@);
                    }
                },
            }
            i = i + 1;
        }
        out
    }
}

/// The concatenation, in ascending order, of the buffered payloads of
/// sequence numbers `1 .. upto`; absent ones contribute nothing.
pub open spec fn spec_concat_payloads(buffer: Map<u32, Seq<u8>>, upto: int) -> Seq<u8>
    decreases upto,
{
    if upto <= 1 {
        Seq::empty()
    } else {
        spec_concat_payloads(buffer, upto - 1) + (if buffer.contains_key((upto - 1) as u32) {
            buffer[(upto - 1) as u32]
        } else {
            Seq::empty()
        })
    }
}

/// One past the largest sequence number seen, the fallback estimate of
/// the frame count when the manifest was lost; zero when nothing was
/// received.  Sequence numbers are data ones, below the
/// end-of-transmission sentinel.
pub fn calculate_expected_number_of_packets(received_seq_numbers: &Vec<u32>) -> (r: u32)
    requires
        forall|i: int|
            0 <= i < received_seq_numbers@.len() ==> #[trigger] received_seq_numbers@[i]
                < END_OF_TRANSMISSION_SEQ_NUM,
    ensures
        received_seq_numbers@.len() == 0 ==> r == 0,
        received_seq_numbers@.len() > 0 ==> r == spec_seq_max(received_seq_numbers@) + 1,
{
    if received_seq_numbers.len() == 0 {
        return 0;
    }
    let mut max_seq: u32 = received_seq_numbers[0];
    proof {
        reveal_with_fuel(spec_seq_max, 2);
        assert(received_seq_numbers@.take(1).drop_last() =~= Seq::<u32>::empty());
        assert(received_seq_numbers@.take(1).last() == received_seq_numbers@[0]);
    }
    let mut i: usize = 1;
    while i < received_seq_numbers.len()
        invariant
            1 <= i <= received_seq_numbers@.len(),
            max_seq == spec_seq_max(received_seq_numbers@.take(i as int)),
            forall|j: int|
                0 <= j < received_seq_numbers@.len() ==> #[trigger] received_seq_numbers@[j]
                    < END_OF_TRANSMISSION_SEQ_NUM,
        decreases received_seq_numbers@.len() - i,
    {
        proof {
            assert(received_seq_numbers@.take(i as int + 1).drop_last() =~= received_seq_numbers@.take(
                i as int,
            ));
            assert(received_seq_numbers@.take(i as int + 1).last() == received_seq_numbers@[
                i as int
            ]);
        }
        if received_seq_numbers[i] > max_seq {
            max_seq = received_seq_numbers[i];
        }
        i = i + 1;
    }
    proof {
        assert(received_seq_numbers@.take(received_seq_numbers@.len() as int)
            =~= received_seq_numbers@);
        lemma_seq_max_props(received_seq_numbers@);
        let k = choose|k: int|
            0 <= k < received_seq_numbers@.len() && received_seq_numbers@[k] == spec_seq_max(
                received_seq_numbers@,
            );
        assert(received_seq_numbers@[k] < END_OF_TRANSMISSION_SEQ_NUM);
    }
    max_seq + 1
}

/// The sequence numbers in `lo .. hi` that the list does not hold, in
/// ascending order.
fn missing_in_range(received: &Vec<u32>, lo: u32, hi: u32) -> (r: Vec<u32>)
    ensures
        forall|i: int, j: int| 0 <= i < j < r@.len() ==> #[trigger] r@[i] < #[trigger] r@[j],
        forall|n: u32| #[trigger] r@.contains(n) <==> (lo <= n < hi && !received@.contains(n)),
{
    let mut out: Vec<u32> = Vec::new();
    let mut n: u32 = lo;
    if hi <= lo {
        proof {
            assert(forall|m: u32| !out@.contains(m)) by {
                assert(out@.len() == 0);
            }
        }
        return out;
    }
    while n < hi
        invariant
            lo <= n <= hi,
            forall|i: int, j: int| 0 <= i < j < out@.len() ==> #[trigger] out@[i] < #[trigger] out@[j],
            forall|i: int| 0 <= i < out@.len() ==> lo <= #[trigger] out@[i] < n,
            forall|m: u32| #[trigger]
                out@.contains(m) <==> (lo <= m < n && !received@.contains(m)),
        decreases hi - n,
    {
        if !vec_contains(received, n) {
            let ghost prev = out@;
            out.push(n);
            proof {
                assert forall|m: u32| #[trigger]
                    out@.contains(m) <==> (lo <= m < n + 1 && !received@.contains(m)) by {
                    if m == n {
                        assert(out@[out@.len() - 1] == n);
                        assert(out@.contains(n));
                    } else {
                        assert(out@.contains(m) <==> prev.contains(m)) by {
                            if prev.contains(m) {
                                let j = choose|j: int| 0 <= j < prev.len() && prev[j] == m;
                                assert(out@[j] == m);
                            }
                            if out@.contains(m) {
                                let j = choose|j: int| 0 <= j < out@.len() && out@[j] == m;
                                assert(j < out@.len() - 1 ==> prev[j] == m);
                            }
                        }
                    }
                }
            }
        } else {
            proof {
                assert forall|m: u32| #[trigger]
                    out@.contains(m) <==> (lo <= m < n + 1 && !received@.contains(m)) by {
                    if m == n {
                        assert(received@.contains(n));
                    }
                }
            }
        }
        n = n + 1;
    }
    out
}

/// The gaps in a transfer: every sequence number below the expected
/// count that the received list does not hold, ascending.  The zero
/// sequence number — the manifest's — is reported like any other
/// absentee and is for the caller to disregard.
pub fn identify_missing_packets(received_seq_numbers: &Vec<u32>, expected_num_packets: u32) -> (r:
    Vec<u32>)
    ensures
        forall|i: int, j: int| 0 <= i < j < r@.len() ==> #[trigger] r@[i] < #[trigger] r@[j],
        forall|n: u32| #[trigger]
            r@.contains(n) <==> (n < expected_num_packets && !received_seq_numbers@.contains(n)),
{
    missing_in_range(received_seq_numbers, 0, expected_num_packets)
}

/// Replaying a frame the buffer already holds, with the byte-identical
/// payload the cache guarantees, leaves the buffer exactly as it was.
pub proof fn lemma_replay_is_noop(buffer: Map<u32, Seq<u8>>, s: u32, p: Seq<u8>)
    requires
        buffer.contains_key(s),
        buffer[s] == p,
    ensures
        buffer.insert(s, p) == buffer,
{
    assert(buffer.insert(s, p) =~= buffer);
}

/// Whether the datagram begins with the ASCII word `ERROR`.
fn is_error_text(buf: &[u8]) -> (r: bool)
    ensures
        r == spec_is_error_text(buf@),
{
    if buf.len() < 5 {
        return false;
    }
    let r = *vstd::slice::slice_index_get(buf, 0) == 0x45 && *vstd::slice::slice_index_get(buf, 1)
        == 0x52 && *vstd::slice::slice_index_get(buf, 2) == 0x52 && *vstd::slice::slice_index_get(
        buf,
        3,
    ) == 0x4f && *vstd::slice::slice_index_get(buf, 4) == 0x52;
    proof {
        if r {
            assert(buf@.subrange(0, 5) =~= spec_error_prefix());
        } else {
            assert(buf@.subrange(0, 5) != spec_error_prefix()) by {
                if buf@.subrange(0, 5) == spec_error_prefix() {
                    assert(buf@[0] == 0x45 && buf@[1] == 0x52 && buf@[2] == 0x52 && buf@[3] == 0x4f
                        && buf@[4] == 0x52) by {
                        assert(buf@.subrange(0, 5)[0] == buf@[0]);
                        assert(buf@.subrange(0, 5)[1] == buf@[1]);
                        assert(buf@.subrange(0, 5)[2] == buf@[2]);
                        assert(buf@.subrange(0, 5)[3] == buf@[3]);
                        assert(buf@.subrange(0, 5)[4] == buf@[4]);
                    }
                }
            }
        }
    }
    r
}

/// Whether the sequence list holds the given value.
fn vec_contains(v: &Vec<u32>, x: u32) -> (r: bool)
    ensures
        r == v@.contains(x),
{
    let mut i: usize = 0;
    while i < v.len()
        invariant
            i <= v@.len(),
            forall|j: int| 0 <= j < i ==> v@[j] != x,
        decreases v@.len() - i,
    {
        if v[i] == x {
            return true;
        }
        i = i + 1;
    }
    false
}

/// The sequence list with every occurrence of the given value removed.
fn vec_remove_value(v: &Vec<u32>, x: u32) -> (r: Vec<u32>)
    ensures
        r@ == v@.filter(|y: u32| y != x),
{
    let mut out: Vec<u32> = Vec::new();
    proof {
        assert(v@.take(0) =~= Seq::<u32>::empty());
        assert(out@ =~= v@.take(0).filter(|y: u32| y != x));
    }
    let mut i: usize = 0;
    while i < v.len()
        invariant
            i <= v@.len(),
            out@ == v@.take(i as int).filter(|y: u32| y != x),
        decreases v@.len() - i,
    {
        proof {
            reveal_with_fuel(Seq::<_>::filter, 2);
            assert(v@.take(i as int + 1).drop_last() =~= v@.take(i as int));
            assert(v@.take(i as int + 1).last() == v@[i as int]);
        }
        if v[i] != x {
            out.push(v[i]);
        }
        i = i + 1;
    }
    proof {
        assert(v@.take(v@.len() as int) =~= v@);
    }
    out
}

} // verus!
