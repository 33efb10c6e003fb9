//! The wire frame: a 12-byte big-endian header followed by the payload.
//!
//! Header fields in order: sequence number (4 bytes), source port
//! (2 bytes), destination port (2 bytes), length (2 bytes, counting the
//! payload plus 8), checksum (2 bytes, over the payload only).

use vstd::prelude::*;

use crate::checksum::calculate_checksum;
use crate::checksum::checksum16;
use crate::END_OF_TRANSMISSION_SEQ_NUM;
use crate::HEADER_LEN;
use crate::MAX_PAYLOAD;

verus! {

/// Big-endian bytes of a 16-bit value.
pub open spec fn be16(x: u16) -> Seq<u8> {
    seq![(x / 256) as u8, (x % 256) as u8]
}

/// Big-endian bytes of a 32-bit value.
pub open spec fn be32(x: u32) -> Seq<u8> {
    seq![
        (x / 0x1000000) as u8,
        ((x / 0x10000) % 256) as u8,
        ((x / 256) % 256) as u8,
        (x % 256) as u8,
    ]
}

/// The 16-bit value a big-endian byte pair stands for.
pub open spec fn be16_value(s: Seq<u8>) -> u16
    recommends
        s.len() == 2,
{
    ((s[0] as int) * 256 + (s[1] as int)) as u16
}

/// The 32-bit value four big-endian bytes stand for.
pub open spec fn be32_value(s: Seq<u8>) -> u32
    recommends
        s.len() == 4,
{
    ((s[0] as int) * 0x1000000 + (s[1] as int) * 0x10000 + (s[2] as int) * 256 + (
    s[3] as int)) as u32
}

pub proof fn lemma_be16_value_of_be16(x: u16)
    ensures
        be16(x).len() == 2,
        be16_value(be16(x)) == x,
{
    assert(((x / 256) as u8 as int) * 256 + ((x % 256) as u8 as int) == x) by (bit_vector);
}

pub proof fn lemma_be32_value_of_be32(x: u32)
    ensures
        be32(x).len() == 4,
        be32_value(be32(x)) == x,
{
    assert(((x / 0x1000000) as u8 as int) * 0x1000000 + (((x / 0x10000) % 256) as u8 as int)
        * 0x10000 + (((x / 256) % 256) as u8 as int) * 256 + ((x % 256) as u8 as int)
        == x) by (bit_vector);
}

pub proof fn lemma_be16_of_be16_value(s: Seq<u8>)
    requires
        s.len() == 2,
    ensures
        be16(be16_value(s)) == s,
{
    let a = s[0];
    let b = s[1];
    let x = be16_value(s);
    assert(x == ((a as int) * 256 + (b as int)) as u16);
    assert({
        let y = ((a as int) * 256 + (b as int)) as u16;
        (y / 256) as u8 == a && (y % 256) as u8 == b
    }) by (bit_vector);
    assert(be16(x) =~= s);
}

pub proof fn lemma_be32_of_be32_value(s: Seq<u8>)
    requires
        s.len() == 4,
    ensures
        be32(be32_value(s)) == s,
{
    let a = s[0];
    let b = s[1];
    let c = s[2];
    let d = s[3];
    let x = be32_value(s);
    assert(x == ((a as int) * 0x1000000 + (b as int) * 0x10000 + (c as int) * 256 + (
    d as int)) as u32);
    assert({
        let y = ((a as int) * 0x1000000 + (b as int) * 0x10000 + (c as int) * 256 + (
        d as int)) as u32;
        (y / 0x1000000) as u8 == a && ((y / 0x10000) % 256) as u8 == b && ((y / 256) % 256) as u8
            == c && (y % 256) as u8 == d
    }) by (bit_vector);
    assert(be32(x) =~= s);
}

/// Mathematical image of a frame: every field as a plain value, the
/// payload as a byte sequence.
pub ghost struct FrameModel {
    pub seq_number: u32,
    pub src_port: u16,
    pub dst_port: u16,
    pub length: u16,
    pub checksum: u16,
    pub data: Seq<u8>,
}

/// The bytes a frame puts on the wire.
pub open spec fn spec_serialize(m: FrameModel) -> Seq<u8> {
    be32(m.seq_number) + be16(m.src_port) + be16(m.dst_port) + be16(m.length) + be16(m.checksum)
        + m.data
}

/// The frame a well-sized datagram stands for.
pub open spec fn spec_decode(b: Seq<u8>) -> FrameModel
    recommends
        b.len() >= HEADER_LEN,
{
    FrameModel {
        seq_number: be32_value(b.subrange(0, 4)),
        src_port: be16_value(b.subrange(4, 6)),
        dst_port: be16_value(b.subrange(6, 8)),
        length: be16_value(b.subrange(8, 10)),
        checksum: be16_value(b.subrange(10, 12)),
        data: b.skip(HEADER_LEN as int),
    }
}

/// A frame whose length field accounts for its payload and whose
/// payload fits in one datagram.
pub open spec fn frame_wf(m: FrameModel) -> bool {
    &&& m.length == m.data.len() + 8
    &&& m.data.len() <= MAX_PAYLOAD
}

/// A data frame additionally carries a checksum that covers its payload
/// and a sequence number that is neither reserved value.
pub open spec fn data_frame_wf(m: FrameModel) -> bool {
    &&& frame_wf(m)
    &&& m.checksum == checksum16(m.data)
    &&& 0 < m.seq_number < END_OF_TRANSMISSION_SEQ_NUM
}

/// One protocol data unit: header fields plus owned payload bytes.
pub struct UdpPacket {
    pub seq_number: u32,
    pub src_port: u16,
    pub dst_port: u16,
    pub length: u16,
    pub checksum: u16,
    pub data: Vec<u8>,
}

impl View for UdpPacket {
    type V = FrameModel;

    open spec fn view(&self) -> FrameModel {
        FrameModel {
            seq_number: self.seq_number,
            src_port: self.src_port,
            dst_port: self.dst_port,
            length: self.length,
            checksum: self.checksum,
            data: self.data@,
        }
    }
}

/// Why a datagram fails to decode as a frame.
#[derive(PartialEq, Eq, Structural, Clone, Copy, Debug)]
pub enum DecodeError {
    /// Shorter than the 12-byte header.
    TooShort,
    /// The length field does not account for the payload.
    LengthMismatch,
}

impl UdpPacket {
    /// Builds a frame from its fields.
    pub fn new(
        seq_number: u32,
        src_port: u16,
        dst_port: u16,
        data: Vec<u8>,
        length: u16,
        checksum: u16,
    ) -> (r: UdpPacket)
        ensures
            r@ == (FrameModel {
                seq_number,
                src_port,
                dst_port,
                length,
                checksum,
                data: data@,
            }),
    {
        UdpPacket { seq_number, src_port, dst_port, length, checksum, data }
    }

    /// Computes the 16-bit one's-complement checksum of a payload
    /// slice, as the sender stamps it into each data frame.
    pub fn calculate_checksum(data: &[u8]) -> (r: u16)
        requires
            data@.len() <= 0xFFFF,
        ensures
            r == checksum16(data@),
    {
        calculate_checksum(data)
    }

    /// Emits the frame's wire bytes: the header fields in network byte
    /// order, then the payload.
    pub fn serialize(&self) -> (r: Vec<u8>)
        ensures
            r@ == spec_serialize(self@),
            r@.len() == HEADER_LEN + self.data@.len(),
    {
        let mut bytes: Vec<u8> = Vec::new();
        bytes.push((self.seq_number / 0x1000000) as u8);
        bytes.push(((self.seq_number / 0x10000) % 256) as u8);
        bytes.push(((self.seq_number / 256) % 256) as u8);
        bytes.push((self.seq_number % 256) as u8);
        bytes.push((self.src_port / 256) as u8);
        bytes.push((self.src_port % 256) as u8);
        bytes.push((self.dst_port / 256) as u8);
        bytes.push((self.dst_port % 256) as u8);
        bytes.push((self.length / 256) as u8);
        bytes.push((self.length % 256) as u8);
        bytes.push((self.checksum / 256) as u8);
        bytes.push((self.checksum % 256) as u8);
        let ghost header = bytes@;
        proof {
            assert(header =~= be32(self.seq_number) + be16(self.src_port) + be16(self.dst_port)
                + be16(self.length) + be16(self.checksum));
        }
        let mut i: usize = 0;
        while i < self.data.len()
            invariant
                i <= self.data@.len(),
                bytes@ == header + self.data@.take(i as int),
            decreases self.data@.len() - i,
        {
            bytes.push(self.data[i]);
            proof {
                assert(header + self.data@.take(i as int) + seq![self.data@[i as int]] =~= header
                    + self.data@.take(i as int + 1));
            }
            i = i + 1;
        }
        proof {
            assert(self.data@.take(self.data@.len() as int) =~= self.data@);
        }
        bytes
    }

    /// Parses a datagram back into a frame.  Succeeds exactly on
    /// datagrams that hold a full header whose length field accounts
    /// for the payload; checksum verification is a separate step, so
    /// manifest and end-of-transmission frames with a zero checksum
    /// field pass.
    pub fn decode(bytes: &[u8]) -> (r: Result<UdpPacket, DecodeError>)
        ensures
            bytes@.len() < HEADER_LEN ==> r == Err::<UdpPacket, DecodeError>(DecodeError::TooShort),
            bytes@.len() >= HEADER_LEN && spec_decode(bytes@).length != bytes@.len() - 4 ==> r
                == Err::<UdpPacket, DecodeError>(DecodeError::LengthMismatch),
            bytes@.len() >= HEADER_LEN && spec_decode(bytes@).length == bytes@.len() - 4 ==> {
                &&& r is Ok
                &&& r->Ok_0@ == spec_decode(bytes@)
            },
    {
        if bytes.len() < HEADER_LEN {
            return Err(DecodeError::TooShort);
        }
        let seq_number = read_be32(bytes, 0);
        let src_port = read_be16(bytes, 4);
        let dst_port = read_be16(bytes, 6);
        let length = read_be16(bytes, 8);
        let checksum = read_be16(bytes, 10);
        if (length as usize) != bytes.len() - 4 {
            return Err(DecodeError::LengthMismatch);
        }
        let mut data: Vec<u8> = Vec::new();
        let mut i: usize = HEADER_LEN;
        while i < bytes.len()
            invariant
                HEADER_LEN <= i <= bytes@.len(),
                data@ == bytes@.subrange(HEADER_LEN as int, i as int),
            decreases bytes@.len() - i,
        {
            data.push(bytes[i]);
            proof {
                assert(bytes@.subrange(HEADER_LEN as int, i as int) + seq![bytes@[i as int]]
                    =~= bytes@.subrange(HEADER_LEN as int, i as int + 1));
            }
            i = i + 1;
        }
        proof {
            assert(bytes@.subrange(HEADER_LEN as int, bytes@.len() as int) =~= bytes@.skip(
                HEADER_LEN as int,
            ));
        }
        Ok(UdpPacket { seq_number, src_port, dst_port, length, checksum, data })
    }
}

/// Reads the big-endian 32-bit value at `at`.
pub(crate) fn read_be32(bytes: &[u8], at: usize) -> (r: u32)
    requires
        at + 4 <= bytes@.len(),
    ensures
        r == be32_value(bytes@.subrange(at as int, at as int + 4)),
{
    let _n = bytes.len();
    let b0 = *vstd::slice::slice_index_get(bytes, at) as u32;
    let b1 = *vstd::slice::slice_index_get(bytes, at + 1) as u32;
    let b2 = *vstd::slice::slice_index_get(bytes, at + 2) as u32;
    let b3 = *vstd::slice::slice_index_get(bytes, at + 3) as u32;
    b0 * 0x1000000 + b1 * 0x10000 + b2 * 256 + b3
}

/// Reads the big-endian 16-bit value at `at`.
pub(crate) fn read_be16(bytes: &[u8], at: usize) -> (r: u16)
    requires
        at + 2 <= bytes@.len(),
    ensures
        r == be16_value(bytes@.subrange(at as int, at as int + 2)),
{
    let _n = bytes.len();
    let b0 = *vstd::slice::slice_index_get(bytes, at) as u16;
    let b1 = *vstd::slice::slice_index_get(bytes, at + 1) as u16;
    b0 * 256 + b1
}

/// Decoding undoes encoding: a well-formed frame put on the wire and
/// parsed again comes back field for field.
pub proof fn lemma_decode_of_serialize(m: FrameModel)
    requires
        frame_wf(m),
    ensures
        spec_serialize(m).len() == HEADER_LEN + m.data.len(),
        spec_decode(spec_serialize(m)) == m,
        spec_decode(spec_serialize(m)).length == spec_serialize(m).len() - 4,
{
    let b = spec_serialize(m);
    lemma_be32_value_of_be32(m.seq_number);
    lemma_be16_value_of_be16(m.src_port);
    lemma_be16_value_of_be16(m.dst_port);
    lemma_be16_value_of_be16(m.length);
    lemma_be16_value_of_be16(m.checksum);
    assert(b.subrange(0, 4) =~= be32(m.seq_number));
    assert(b.subrange(4, 6) =~= be16(m.src_port));
    assert(b.subrange(6, 8) =~= be16(m.dst_port));
    assert(b.subrange(8, 10) =~= be16(m.length));
    assert(b.subrange(10, 12) =~= be16(m.checksum));
    assert(b.skip(HEADER_LEN as int) =~= m.data);
}

/// Encoding undoes decoding: any datagram that holds a full header is
/// reproduced byte for byte by re-serializing the frame it decodes to.
pub proof fn lemma_serialize_of_decode(b: Seq<u8>)
    requires
        b.len() >= HEADER_LEN,
    ensures
        spec_serialize(spec_decode(b)) == b,
{
    let m = spec_decode(b);
    lemma_be32_of_be32_value(b.subrange(0, 4));
    lemma_be16_of_be16_value(b.subrange(4, 6));
    lemma_be16_of_be16_value(b.subrange(6, 8));
    lemma_be16_of_be16_value(b.subrange(8, 10));
    lemma_be16_of_be16_value(b.subrange(10, 12));
    assert(spec_serialize(m) =~= b);
}

} // verus!
