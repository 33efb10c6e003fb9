//! Laws that tie the sender and the receiver together: a complete
//! reassembly buffer reproduces the source file byte for byte, the
//! arrival order of data frames does not matter, and a transfer that
//! loses frames on the first pass still reproduces the file once the
//! retransmitted frames arrive.

use vstd::prelude::*;

use crate::receiver::spec_concat_payloads;
use crate::sender::spec_chunk;
use crate::sender::spec_num_chunks;
use crate::MAX_PAYLOAD;

verus! {

/// The payload that belongs to a data sequence number of the file.
pub open spec fn spec_payload_fn(data: Seq<u8>) -> spec_fn(u32) -> Seq<u8> {
    |s: u32| spec_chunk(data, s as int - 1)
}

/// A buffer that holds exactly the transfer's data sequence numbers,
/// each with the payload the sender cut for it.
pub open spec fn spec_complete_buffer(data: Seq<u8>, buffer: Map<u32, Seq<u8>>) -> bool {
    &&& forall|k: u32| #[trigger]
        buffer.contains_key(k) <==> 1 <= k <= spec_num_chunks(data.len() as int)
    &&& forall|k: u32|
        1 <= k <= spec_num_chunks(data.len() as int) ==> #[trigger] buffer[k] == spec_chunk(
            data,
            k as int - 1,
        )
}

proof fn lemma_concat_prefix(data: Seq<u8>, buffer: Map<u32, Seq<u8>>, u: int)
    requires
        data.len() <= (MAX_PAYLOAD as int) * 0xFFFF_FFFE,
        spec_complete_buffer(data, buffer),
        1 <= u <= spec_num_chunks(data.len() as int) + 1,
    ensures
        spec_concat_payloads(buffer, u) == data.take(
            if (u - 1) * (MAX_PAYLOAD as int) <= data.len() {
                (u - 1) * (MAX_PAYLOAD as int)
            } else {
                data.len() as int
            },
        ),
    decreases u,
{
    let m = MAX_PAYLOAD as int;
    let n = spec_num_chunks(data.len() as int);
    crate::sender::lemma_num_chunks_bounds(data.len() as int);
    if u == 1 {
        assert(data.take(0) =~= Seq::<u8>::empty());
    } else {
        lemma_concat_prefix(data, buffer, u - 1);
        let k = (u - 1) as u32;
        assert(1 <= u - 1 <= n);
        assert(k as int == u - 1);
        assert(buffer.contains_key(k));
        assert(buffer[k] == spec_chunk(data, u - 2));
        assert((u - 2) * m < data.len());
        assert((u - 2) * m == (u - 1) * m - m && (u - 1) * m == u * m - m);
        let lo = (u - 2) * m;
        let hi = if (u - 1) * m <= data.len() {
            (u - 1) * m
        } else {
            data.len() as int
        };
        assert(spec_chunk(data, u - 2) == data.subrange(lo, hi));
        assert(data.take(lo) + data.subrange(lo, hi) =~= data.take(hi));
    }
}

/// A complete reassembly buffer, written out in ascending sequence
/// order, reproduces the source file byte for byte.
pub proof fn lemma_reassembly_exact(data: Seq<u8>, buffer: Map<u32, Seq<u8>>)
    requires
        data.len() <= (MAX_PAYLOAD as int) * 0xFFFF_FFFE,
        spec_complete_buffer(data, buffer),
    ensures
        spec_concat_payloads(buffer, spec_num_chunks(data.len() as int) + 1) == data,
{
    let m = MAX_PAYLOAD as int;
    let n = spec_num_chunks(data.len() as int);
    crate::sender::lemma_num_chunks_bounds(data.len() as int);
    lemma_concat_prefix(data, buffer, n + 1);
    assert(n * m >= data.len());
    assert(data.take(data.len() as int) =~= data);
}

/// The buffer after storing the given payloads under the given
/// sequence numbers, in arrival order.
pub open spec fn spec_fill(
    b: Map<u32, Seq<u8>>,
    order: Seq<u32>,
    f: spec_fn(u32) -> Seq<u8>,
) -> Map<u32, Seq<u8>>
    decreases order.len(),
{
    if order.len() == 0 {
        b
    } else {
        spec_fill(b.insert(order[0], f(order[0])), order.drop_first(), f)
    }
}

proof fn lemma_contains_head_or_rest(order: Seq<u32>, k: u32)
    requires
        order.len() > 0,
    ensures
        order.contains(k) <==> (k == order[0] || order.drop_first().contains(k)),
{
    if order.contains(k) {
        let j = choose|j: int| 0 <= j < order.len() && order[j] == k;
        if j > 0 {
            assert(order.drop_first()[j - 1] == k);
        }
    }
    if order.drop_first().contains(k) {
        let j = choose|j: int|
            0 <= j < order.drop_first().len() && order.drop_first()[j] == k;
        assert(order[j + 1] == k);
    }
    if k == order[0] {
        assert(order.contains(k)) by {
            assert(order[0] == k);
        }
    }
}

/// What filling a buffer amounts to: the keys grow by the set of
/// stored sequence numbers, each stored one maps to its own payload,
/// and the order of storing leaves no trace.
pub proof fn lemma_fill_as_set(b: Map<u32, Seq<u8>>, order: Seq<u32>, f: spec_fn(u32) -> Seq<u8>)
    ensures
        spec_fill(b, order, f) == Map::<u32, Seq<u8>>::new(
            |k: u32| b.contains_key(k) || order.contains(k),
            |k: u32|
                if order.contains(k) {
                    f(k)
                } else {
                    b[k]
                },
        ),
    decreases order.len(),
{
    let target = Map::<u32, Seq<u8>>::new(
        |k: u32| b.contains_key(k) || order.contains(k),
        |k: u32|
            if order.contains(k) {
                f(k)
            } else {
                b[k]
            },
    );
    if order.len() == 0 {
        assert forall|k: u32| #![auto] !order.contains(k) by {}
        assert(spec_fill(b, order, f) =~= target);
    } else {
        let o0 = order[0];
        let b1 = b.insert(o0, f(o0));
        let rest = order.drop_first();
        lemma_fill_as_set(b1, rest, f);
        assert forall|k: u32| #![auto] order.contains(k) <==> (k == o0 || rest.contains(k)) by {
            lemma_contains_head_or_rest(order, k);
        }
        assert(spec_fill(b, order, f) =~= target);
    }
}

/// Permuting the arrival order of data frames leaves the reassembly
/// buffer, and with it the reconstructed file, unchanged: two arrival
/// orders that deliver the same set of sequence numbers fill a buffer
/// identically.
pub proof fn lemma_order_independence(
    b: Map<u32, Seq<u8>>,
    order1: Seq<u32>,
    order2: Seq<u32>,
    f: spec_fn(u32) -> Seq<u8>,
)
    requires
        forall|k: u32| order1.contains(k) <==> order2.contains(k),
    ensures
        spec_fill(b, order1, f) == spec_fill(b, order2, f),
{
    lemma_fill_as_set(b, order1, f);
    lemma_fill_as_set(b, order2, f);
    assert(spec_fill(b, order1, f) =~= spec_fill(b, order2, f));
}

/// Loss recovery: if the first pass delivers some of the transfer's
/// data frames and a retransmission pass delivers frames that cover
/// the rest — each frame carrying the payload the sender cut for its
/// sequence number, in whatever order — the reassembled file equals
/// the source.  In particular one lost frame per sequence number is
/// recovered by one retransmission of it.
pub proof fn lemma_loss_recovery(data: Seq<u8>, first_pass: Seq<u32>, second_pass: Seq<u32>)
    requires
        data.len() <= (MAX_PAYLOAD as int) * 0xFFFF_FFFE,
        forall|k: u32|
            1 <= k <= spec_num_chunks(data.len() as int) ==> first_pass.contains(k)
                || second_pass.contains(k),
        forall|k: u32| #[trigger]
            first_pass.contains(k) ==> 1 <= k <= spec_num_chunks(data.len() as int),
        forall|k: u32| #[trigger]
            second_pass.contains(k) ==> 1 <= k <= spec_num_chunks(data.len() as int),
    ensures
        spec_concat_payloads(
            spec_fill(
                spec_fill(Map::<u32, Seq<u8>>::empty(), first_pass, spec_payload_fn(data)),
                second_pass,
                spec_payload_fn(data),
            ),
            spec_num_chunks(data.len() as int) + 1,
        ) == data,
{
    let f = spec_payload_fn(data);
    let b1 = spec_fill(Map::<u32, Seq<u8>>::empty(), first_pass, f);
    let b2 = spec_fill(b1, second_pass, f);
    lemma_fill_as_set(Map::<u32, Seq<u8>>::empty(), first_pass, f);
    lemma_fill_as_set(b1, second_pass, f);
    assert(spec_complete_buffer(data, b2)) by {
        assert forall|k: u32| #[trigger]
            b2.contains_key(k) <==> 1 <= k <= spec_num_chunks(data.len() as int) by {}
        assert forall|k: u32|
            1 <= k <= spec_num_chunks(data.len() as int) implies #[trigger] b2[k] == spec_chunk(
            data,
            k as int - 1,
        ) by {
            assert(b2.contains_key(k));
        }
    }
    lemma_reassembly_exact(data, b2);
}

} // verus!
