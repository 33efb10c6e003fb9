//! Sender-side logic: fragmenting a file into frames, the
//! retransmission cache, and the response to a selective-repeat
//! request.  Socket sends stay outside; these functions say which
//! frames go out and what the cache holds afterwards.

use std::collections::HashMap;
use vstd::prelude::*;

use crate::checksum::calculate_checksum;
use crate::checksum::checksum16;
use crate::frame::be32;
use crate::frame::spec_serialize;
use crate::frame::FrameModel;
use crate::frame::UdpPacket;
use crate::END_OF_TRANSMISSION_SEQ_NUM;
use crate::MAX_PAYLOAD;

verus! {

broadcast use vstd::std_specs::hash::group_hash_axioms;

/// How many data frames a file of `len` bytes fragments into.
pub open spec fn spec_num_chunks(len: int) -> int {
    (len + (MAX_PAYLOAD as int) - 1) / (MAX_PAYLOAD as int)
}

/// The `i`-th payload slice of the file, counted from zero.
pub open spec fn spec_chunk(data: Seq<u8>, i: int) -> Seq<u8>
    recommends
        0 <= i < spec_num_chunks(data.len() as int),
{
    data.subrange(
        i * (MAX_PAYLOAD as int),
        if (i + 1) * (MAX_PAYLOAD as int) <= data.len() {
            (i + 1) * (MAX_PAYLOAD as int)
        } else {
            data.len() as int
        },
    )
}

/// The manifest frame: sequence number zero, the total frame count as
/// its four payload bytes, checksum field unused.
pub open spec fn spec_manifest_frame(src_port: u16, dst_port: u16, total: u32) -> FrameModel {
    FrameModel { seq_number: 0, src_port, dst_port, length: 12, checksum: 0, data: be32(total) }
}

/// The data frame with sequence number `seq` for the given file bytes.
pub open spec fn spec_data_frame(src_port: u16, dst_port: u16, data: Seq<u8>, seq: int) -> FrameModel {
    let chunk = spec_chunk(data, seq - 1);
    FrameModel {
        seq_number: seq as u32,
        src_port,
        dst_port,
        length: (chunk.len() + 8) as u16,
        checksum: checksum16(chunk),
        data: chunk,
    }
}

/// The end-of-transmission sentinel frame: empty payload, zero
/// checksum.
pub open spec fn spec_eot_frame(src_port: u16, dst_port: u16) -> FrameModel {
    FrameModel {
        seq_number: END_OF_TRANSMISSION_SEQ_NUM,
        src_port,
        dst_port,
        length: 8,
        checksum: 0,
        data: Seq::empty(),
    }
}

/// The frame models of a run of packets.
pub open spec fn frame_models(s: Seq<UdpPacket>) -> Seq<FrameModel> {
    Seq::new(s.len(), |i: int| s[i]@)
}

impl UdpPacket {
    /// A field-for-field copy of the frame.
    pub fn duplicate(&self) -> (r: UdpPacket)
        ensures
            r@ == self@,
    {
        UdpPacket {
            seq_number: self.seq_number,
            src_port: self.src_port,
            dst_port: self.dst_port,
            length: self.length,
            checksum: self.checksum,
            data: vstd::slice::slice_to_vec(self.data.as_slice()),
        }
    }

    /// Fragments file bytes into the full first-transmission run: the
    /// manifest carrying the total frame count, then one data frame per
    /// payload-sized slice, sequence numbers ascending from one.  The
    /// length bound keeps every sequence number below the
    /// end-of-transmission sentinel.
    pub fn prepare_packets(src_port: u16, dst_port: u16, data: Vec<u8>) -> (r: Vec<UdpPacket>)
        requires
            data@.len() <= (MAX_PAYLOAD as int) * 0xFFFF_FFFE,
        ensures
            r@.len() == 1 + spec_num_chunks(data@.len() as int),
            r@.len() <= 0xFFFF_FFFF,
            r@[0]@ == spec_manifest_frame(src_port, dst_port, r@.len() as u32),
            forall|i: int|
                1 <= i < r@.len() ==> #[trigger] r@[i]@ == spec_data_frame(
                    src_port,
                    dst_port,
                    data@,
                    i,
                ),
    {
        let len = data.len();
        let total_packets: u32 = (((len as u64) + (MAX_PAYLOAD as u64) - 1) / (MAX_PAYLOAD as u64)
            + 1) as u32;
        let mut packets: Vec<UdpPacket> = Vec::new();
        let mut manifest_payload: Vec<u8> = Vec::new();
        manifest_payload.push((total_packets / 0x1000000) as u8);
        manifest_payload.push(((total_packets / 0x10000) % 256) as u8);
        manifest_payload.push(((total_packets / 256) % 256) as u8);
        manifest_payload.push((total_packets % 256) as u8);
        proof {
            assert(manifest_payload@ =~= be32(total_packets));
        }
        packets.push(UdpPacket::new(0, src_port, dst_port, manifest_payload, 12, 0));
        let mut offset: usize = 0;
        let mut seq: u32 = 1;
        while offset < len
            invariant
                len == data@.len(),
                len <= (MAX_PAYLOAD as int) * 0xFFFF_FFFE,
                1 <= seq,
                offset == (seq - 1) * (MAX_PAYLOAD as int) || (offset == len && len <= (seq - 1)
                    * (MAX_PAYLOAD as int)),
                offset <= len,
                (seq - 1) * (MAX_PAYLOAD as int) <= len + (MAX_PAYLOAD as int) - 1,
                packets@.len() == seq,
                packets@[0]@ == spec_manifest_frame(src_port, dst_port, total_packets),
                total_packets == 1 + spec_num_chunks(len as int),
                forall|i: int|
                    1 <= i < packets@.len() ==> #[trigger] packets@[i]@ == spec_data_frame(
                        src_port,
                        dst_port,
                        data@,
                        i,
                    ),
            decreases len - offset,
        {
            proof {
                assert((seq - 1) * (MAX_PAYLOAD as int) < len ==> seq - 1 < 0xFFFF_FFFE) by {
                    if seq - 1 >= 0xFFFF_FFFE {
                        vstd::arithmetic::mul::lemma_mul_inequality(
                            0xFFFF_FFFE,
                            seq - 1,
                            MAX_PAYLOAD as int,
                        );
                    }
                }
            }
            let end = if len - offset > MAX_PAYLOAD {
                offset + MAX_PAYLOAD
            } else {
                len
            };
            let chunk: Vec<u8> = vstd::slice::slice_to_vec(
                vstd::slice::slice_subrange(data.as_slice(), offset, end),
            );
            proof {
                assert(chunk@ == spec_chunk(data@, seq - 1));
            }
            let checksum = calculate_checksum(chunk.as_slice());
            let length = (chunk.len() + 8) as u16;
            packets.push(UdpPacket::new(seq, src_port, dst_port, chunk, length, checksum));
            offset = end;
            seq = seq + 1;
        }
        proof {
            let k = seq - 1;
            let m = MAX_PAYLOAD as int;
            assert(len <= k * m);
            assert(k * m <= len + m - 1);
            vstd::arithmetic::div_mod::lemma_fundamental_div_mod_converse(
                len + m - 1,
                m,
                k,
                len + m - 1 - k * m,
            );
            assert(spec_num_chunks(len as int) == k);
        }
        packets
    }
}

/// Every data frame a file fragments into is well formed and its
/// sequence number is neither reserved value: never zero, never the
/// end-of-transmission sentinel.
pub proof fn lemma_data_frames_wf(src_port: u16, dst_port: u16, data: Seq<u8>, seq: int)
    requires
        data.len() <= (MAX_PAYLOAD as int) * 0xFFFF_FFFE,
        1 <= seq <= spec_num_chunks(data.len() as int),
    ensures
        crate::frame::data_frame_wf(spec_data_frame(src_port, dst_port, data, seq)),
        spec_data_frame(src_port, dst_port, data, seq).seq_number != 0,
        spec_data_frame(src_port, dst_port, data, seq).seq_number != END_OF_TRANSMISSION_SEQ_NUM,
{
    let m = MAX_PAYLOAD as int;
    let len = data.len() as int;
    let i = seq - 1;
    assert(seq <= 0xFFFF_FFFE) by {
        assert(spec_num_chunks(len) <= 0xFFFF_FFFE) by {
            vstd::arithmetic::div_mod::lemma_div_is_ordered(
                len + m - 1,
                m * 0xFFFF_FFFE + m - 1,
                m,
            );
            assert((m * 0xFFFF_FFFE + m - 1) / m == 0xFFFF_FFFE) by {
                vstd::arithmetic::div_mod::lemma_fundamental_div_mod_converse(
                    m * 0xFFFF_FFFE + m - 1,
                    m,
                    0xFFFF_FFFE,
                    m - 1,
                );
            }
        }
    }
    assert(i * m < len && (i + 1) * m <= len + m - 1) by {
        assert(i < (len + m - 1) / m);
        vstd::arithmetic::div_mod::lemma_fundamental_div_mod(len + m - 1, m);
        vstd::arithmetic::mul::lemma_mul_inequality(i + 1, (len + m - 1) / m, m);
    }
}

/// Bounds on the chunk count: it fits a sequence number with room for
/// the reserved values, every chunk starts inside the file, and the
/// chunks jointly cover it.
pub proof fn lemma_num_chunks_bounds(len: int)
    requires
        0 <= len <= (MAX_PAYLOAD as int) * 0xFFFF_FFFE,
    ensures
        0 <= spec_num_chunks(len) <= 0xFFFF_FFFE,
        forall|i: int| 0 <= i < spec_num_chunks(len) ==> #[trigger] (i * (MAX_PAYLOAD as int)) < len,
        spec_num_chunks(len) * (MAX_PAYLOAD as int) >= len,
        len > 0 ==> spec_num_chunks(len) >= 1,
{
    let m = MAX_PAYLOAD as int;
    let n = spec_num_chunks(len);
    vstd::arithmetic::div_mod::lemma_fundamental_div_mod(len + m - 1, m);
    let r = (len + m - 1) % m;
    assert(len + m - 1 == m * n + r);
    assert(0 <= n) by {
        vstd::arithmetic::div_mod::lemma_div_pos_is_pos(len + m - 1, m);
    }
    assert(n <= 0xFFFF_FFFE) by {
        vstd::arithmetic::div_mod::lemma_div_is_ordered(len + m - 1, m * 0xFFFF_FFFE + m - 1, m);
        vstd::arithmetic::div_mod::lemma_fundamental_div_mod_converse(
            m * 0xFFFF_FFFE + m - 1,
            m,
            0xFFFF_FFFE,
            m - 1,
        );
    }
    assert forall|i: int| 0 <= i < n implies #[trigger] (i * m) < len by {
        assert((n - 1) * m == m * n - m);
        assert((n - 1) * m < len);
        vstd::arithmetic::mul::lemma_mul_inequality(i, n - 1, m);
    }
    assert(n * m == m * n);
}

/// Builds the end-of-transmission sentinel frame.
pub fn eot_packet(src_port: u16, dst_port: u16) -> (r: UdpPacket)
    ensures
        r@ == spec_eot_frame(src_port, dst_port),
{
    let r = UdpPacket::new(END_OF_TRANSMISSION_SEQ_NUM, src_port, dst_port, Vec::new(), 8, 0);
    proof {
        assert(r@.data =~= spec_eot_frame(src_port, dst_port).data);
    }
    r
}

/// The sender's retransmission cache: every frame of the current
/// transfer, keyed by sequence number, held so that a later selective
/// repeat resends the exact frame first transmitted.
pub struct RetransmissionCache {
    packets: HashMap<u32, UdpPacket>,
}

impl View for RetransmissionCache {
    type V = Map<u32, FrameModel>;

    closed spec fn view(&self) -> Map<u32, FrameModel> {
        self.packets@.map_values(|p: UdpPacket| p@)
    }
}

impl RetransmissionCache {
    /// An empty cache, holding no transfer.
    pub fn new() -> (r: Self)
        ensures
            r@ == Map::<u32, FrameModel>::empty(),
    {
        let packets: HashMap<u32, UdpPacket> = HashMap::new();
        let r = RetransmissionCache { packets };
        proof {
            assert(r@ =~= Map::<u32, FrameModel>::empty());
        }
        r
    }

    /// Drops every cached frame; a new transfer replaces the old one.
    pub fn clear(&mut self)
        ensures
            final(self)@ == Map::<u32, FrameModel>::empty(),
    {
        self.packets.clear();
        proof {
            assert(self@ =~= Map::<u32, FrameModel>::empty());
        }
    }

    /// Caches a frame under its own sequence number.
    pub fn insert(&mut self, packet: UdpPacket)
        ensures
            final(self)@ == old(self)@.insert(packet.seq_number, packet@),
    {
        let ghost k = packet.seq_number;
        let ghost m = packet@;
        let seq_number = packet.seq_number;
        self.packets.insert(seq_number, packet);
        proof {
            assert(self@ =~= old(self)@.insert(k, m));
        }
    }
}

/// Looks a sequence number up in the cache; a hit hands back the frame
/// exactly as it was cached.
pub fn get_packet_for_sequence(cache: &RetransmissionCache, seq_number: u32) -> (r: Option<
    UdpPacket,
>)
    ensures
        match r {
            Some(p) => cache@.contains_key(seq_number) && p@ == cache@[seq_number],
            None => !cache@.contains_key(seq_number),
        },
{
    match cache.packets.get(&seq_number) {
        Some(p) => Some(p.duplicate()),
        None => None,
    }
}

/// The cached frames a retransmission request finds, in request order;
/// sequence numbers the cache does not know are skipped.
pub open spec fn spec_found_frames(m: Map<u32, FrameModel>, seqs: Seq<u32>) -> Seq<FrameModel>
    decreases seqs.len(),
{
    if seqs.len() == 0 {
        Seq::empty()
    } else {
        let rest = spec_found_frames(m, seqs.drop_first());
        if m.contains_key(seqs[0]) {
            seq![m[seqs[0]]] + rest
        } else {
            rest
        }
    }
}

proof fn lemma_found_frames_snoc(m: Map<u32, FrameModel>, s: Seq<u32>, x: u32)
    ensures
        spec_found_frames(m, s.push(x)) == spec_found_frames(m, s) + (if m.contains_key(x) {
            seq![m[x]]
        } else {
            Seq::<FrameModel>::empty()
        }),
    decreases s.len(),
{
    let tail = if m.contains_key(x) {
        seq![m[x]]
    } else {
        Seq::<FrameModel>::empty()
    };
    if s.len() == 0 {
        reveal_with_fuel(spec_found_frames, 3);
        assert(s.push(x).drop_first() =~= Seq::<u32>::empty());
        assert(spec_found_frames(m, s.push(x)) =~= spec_found_frames(m, s) + tail);
    } else {
        lemma_found_frames_snoc(m, s.drop_first(), x);
        assert(s.push(x).drop_first() =~= s.drop_first().push(x));
        assert(spec_found_frames(m, s.push(x)) =~= spec_found_frames(m, s) + tail);
    }
}

/// Answers a selective-repeat request: for each requested sequence
/// number the cache knows, the cached frame, in request order; after a
/// batch in which at least one frame was found, one more
/// end-of-transmission frame.  A batch that found nothing sends
/// nothing.
pub fn handle_retransmission(
    cache: &RetransmissionCache,
    seqs: &Vec<u32>,
    src_port: u16,
    dst_port: u16,
) -> (r: Vec<UdpPacket>)
    ensures
        frame_models(r@) == spec_found_frames(cache@, seqs@) + (if spec_found_frames(
            cache@,
            seqs@,
        ).len() > 0 {
            seq![spec_eot_frame(src_port, dst_port)]
        } else {
            Seq::<FrameModel>::empty()
        }),
{
    let mut out: Vec<UdpPacket> = Vec::new();
    let mut i: usize = 0;
    proof {
        assert(seqs@.take(0) =~= Seq::<u32>::empty());
        assert(frame_models(out@) =~= spec_found_frames(cache@, seqs@.take(0)));
    }
    while i < seqs.len()
        invariant
            i <= seqs@.len(),
            frame_models(out@) == spec_found_frames(cache@, seqs@.take(i as int)),
        decreases seqs@.len() - i,
    {
        proof {
            lemma_found_frames_snoc(cache@, seqs@.take(i as int), seqs@[i as int]);
            assert(seqs@.take(i as int).push(seqs@[i as int]) =~= seqs@.take(i as int + 1));
        }
        match get_packet_for_sequence(cache, seqs[i]) {
            Some(p) => {
                out.push(p);
                proof {
                    assert(frame_models(out@) =~= spec_found_frames(
                        cache@,
                        seqs@.take(i as int + 1),
                    ));
                }
            },
            None => {
                proof {
                    assert(frame_models(out@) =~= spec_found_frames(
                        cache@,
                        seqs@.take(i as int + 1),
                    ));
                }
            },
        }
        i = i + 1;
    }
    proof {
        assert(seqs@.take(seqs@.len() as int) =~= seqs@);
    }
    if out.len() > 0 {
        out.push(eot_packet(src_port, dst_port));
        proof {
            assert(frame_models(out@) =~= spec_found_frames(cache@, seqs@) + seq![
                spec_eot_frame(src_port, dst_port),
            ]);
        }
    } else {
        proof {
            assert(frame_models(out@) =~= spec_found_frames(cache@, seqs@) + Seq::<
                FrameModel,
            >::empty());
        }
    }
    out
}

/// Opens a transfer: fragments the file, fills the cache with every
/// frame keyed by sequence number, and hands back the frames to send —
/// manifest first, data frames in ascending order, the
/// end-of-transmission sentinel last.
pub fn begin_transfer(
    cache: &mut RetransmissionCache,
    src_port: u16,
    dst_port: u16,
    data: Vec<u8>,
) -> (r: Vec<UdpPacket>)
    requires
        data@.len() <= (MAX_PAYLOAD as int) * 0xFFFF_FFFE,
    ensures
        ({
            let total = 1 + spec_num_chunks(data@.len() as int);
            &&& r@.len() == total + 1
            &&& r@[0]@ == spec_manifest_frame(src_port, dst_port, total as u32)
            &&& forall|i: int|
                1 <= i < total ==> #[trigger] r@[i]@ == spec_data_frame(
                    src_port,
                    dst_port,
                    data@,
                    i,
                )
            &&& r@[total]@ == spec_eot_frame(src_port, dst_port)
            &&& forall|k: u32| final(cache)@.contains_key(k) <==> k < total
            &&& forall|k: u32| k < total ==> final(cache)@[k] == #[trigger] r@[k as int]@
        }),
{
    let mut packets = UdpPacket::prepare_packets(src_port, dst_port, data);
    cache.clear();
    let mut i: usize = 0;
    while i < packets.len()
        invariant
            i <= packets@.len(),
            packets@.len() <= 0xFFFF_FFFF,
            packets@[0]@.seq_number == 0,
            forall|j: int| 1 <= j < packets@.len() ==> #[trigger] packets@[j]@.seq_number == j,
            forall|k: u32| cache@.contains_key(k) <==> k < i,
            forall|k: u32| k < i ==> cache@[k] == #[trigger] packets@[k as int]@,
        decreases packets@.len() - i,
    {
        let p = packets[i].duplicate();
        let ghost pm = p@;
        let ghost ps = p.seq_number;
        let ghost prev = cache@;
        proof {
            assert(pm == packets@[i as int]@);
            assert(1 <= i ==> packets@[i as int]@.seq_number == i as int);
            assert(ps as int == i as int);
        }
        cache.insert(p);
        proof {
            assert(cache@ == prev.insert(ps, pm));
            assert forall|k: u32| cache@.contains_key(k) <==> k < i + 1 by {
                assert(cache@.contains_key(k) <==> k == ps || prev.contains_key(k));
            }
            assert forall|k: u32| k < i + 1 implies cache@[k] == #[trigger] packets@[
                k as int
            ]@ by {
                if k == ps {
                    assert(cache@[k] == pm);
                } else {
                    assert(cache@[k] == prev[k]);
                }
            }
        }
        i = i + 1;
    }
    packets.push(eot_packet(src_port, dst_port));
    packets
}

/// When the cache knows every requested sequence number — as it does
/// for any request drawn from the transfer's own frames — the response
/// answers the request in full: one frame per requested number, in
/// request order.
pub proof fn lemma_retransmission_complete(m: Map<u32, FrameModel>, seqs: Seq<u32>)
    requires
        forall|i: int| 0 <= i < seqs.len() ==> m.contains_key(#[trigger] seqs[i]),
    ensures
        spec_found_frames(m, seqs).len() == seqs.len(),
        forall|i: int|
            0 <= i < seqs.len() ==> #[trigger] spec_found_frames(m, seqs)[i] == m[seqs[i]],
    decreases seqs.len(),
{
    if seqs.len() > 0 {
        assert(m.contains_key(seqs[0]));
        assert(forall|i: int|
            0 <= i < seqs.drop_first().len() ==> #[trigger] seqs.drop_first()[i] == seqs[i + 1]);
        lemma_retransmission_complete(m, seqs.drop_first());
    }
}

/// Every frame a retransmission response carries is exactly a frame the
/// cache holds for some requested sequence number, so resending it puts
/// the original transmission's bytes on the wire unchanged.
pub proof fn lemma_retransmit_byte_identical(m: Map<u32, FrameModel>, seqs: Seq<u32>, i: int)
    requires
        0 <= i < spec_found_frames(m, seqs).len(),
    ensures
        exists|s: u32|
            #![auto]
            seqs.contains(s) && m.contains_key(s) && spec_found_frames(m, seqs)[i] == m[s]
                && spec_serialize(spec_found_frames(m, seqs)[i]) == spec_serialize(m[s]),
    decreases seqs.len(),
{
    if m.contains_key(seqs[0]) && i == 0 {
        let s = seqs[0];
        assert(seqs.contains(s)) by {
            assert(seqs[0] == s);
        }
    } else {
        let rest_i = if m.contains_key(seqs[0]) {
            i - 1
        } else {
            i
        };
        lemma_retransmit_byte_identical(m, seqs.drop_first(), rest_i);
        let s = choose|s: u32|
            #![auto]
            seqs.drop_first().contains(s) && m.contains_key(s) && spec_found_frames(
                m,
                seqs.drop_first(),
            )[rest_i] == m[s];
        let j = choose|j: int|
            0 <= j < seqs.drop_first().len() && seqs.drop_first()[j] == s;
        assert(seqs[j + 1] == s);
        assert(seqs.contains(s));
    }
}

} // verus!
