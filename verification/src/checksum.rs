//! The 16-bit one's-complement integrity check.
//!
//! Bytes are paired into big-endian 16-bit words (an odd trailing byte
//! counts as if padded with a zero low byte), the words are summed, the
//! 32-bit running sum is folded twice and bit-inverted.  The check runs
//! over a frame's payload only, never its header.

use vstd::prelude::*;

verus! {

/// Sum of the big-endian 16-bit words of `data`, paired from the front;
/// an odd trailing byte stands alone as the high byte of its word.
pub open spec fn sum_of_words(data: Seq<u8>) -> int
    decreases data.len(),
{
    if data.len() == 0 {
        0
    } else if data.len() == 1 {
        (data[0] as int) * 256
    } else {
        (data[0] as int) * 256 + (data[1] as int) + sum_of_words(data.skip(2))
    }
}

/// One end-around-carry fold of a running sum.
pub open spec fn fold16(s: int) -> int {
    (s % 0x10000) + (s / 0x10000)
}

/// The checksum of a payload: the word sum folded twice, bit-inverted.
pub open spec fn checksum16(data: Seq<u8>) -> u16 {
    (0xFFFF - fold16(fold16(sum_of_words(data)))) as u16
}

/// Whether a wire checksum field agrees with the payload it covers.
pub open spec fn checksum_matches(data: Seq<u8>, wire: u16) -> bool {
    wire == checksum16(data)
}

proof fn lemma_sum_of_words_nonneg(data: Seq<u8>)
    ensures
        0 <= sum_of_words(data),
    decreases data.len(),
{
    if data.len() >= 2 {
        lemma_sum_of_words_nonneg(data.skip(2));
    }
}

proof fn lemma_sum_of_words_bound(data: Seq<u8>)
    ensures
        sum_of_words(data) <= (data.len() + 1) / 2 * 0xFFFF,
    decreases data.len(),
{
    if data.len() >= 2 {
        lemma_sum_of_words_bound(data.skip(2));
    }
}

proof fn lemma_sum_of_words_append_pair(t: Seq<u8>, a: u8, b: u8)
    requires
        t.len() % 2 == 0,
    ensures
        sum_of_words(t + seq![a, b]) == sum_of_words(t) + (a as int) * 256 + (b as int),
    decreases t.len(),
{
    if t.len() == 0 {
        reveal_with_fuel(sum_of_words, 3);
        assert(t + seq![a, b] =~= seq![a, b]);
        assert(seq![a, b].skip(2) =~= Seq::<u8>::empty());
    } else {
        lemma_sum_of_words_append_pair(t.skip(2), a, b);
        assert((t + seq![a, b]).skip(2) =~= t.skip(2) + seq![a, b]);
    }
}

proof fn lemma_sum_of_words_append_one(t: Seq<u8>, a: u8)
    requires
        t.len() % 2 == 0,
    ensures
        sum_of_words(t.push(a)) == sum_of_words(t) + (a as int) * 256,
    decreases t.len(),
{
    if t.len() == 0 {
        reveal_with_fuel(sum_of_words, 2);
        assert(t.push(a) =~= seq![a]);
    } else {
        lemma_sum_of_words_append_one(t.skip(2), a);
        assert(t.push(a).skip(2) =~= t.skip(2).push(a));
    }
}

/// Computes the checksum of a payload.  The length bound keeps the
/// 32-bit accumulator from overflowing; every protocol payload is far
/// below it.
pub fn calculate_checksum(data: &[u8]) -> (r: u16)
    requires
        data@.len() <= 0xFFFF,
    ensures
        r == checksum16(data@),
{
    let mut sum: u32 = 0;
    let mut i: usize = 0;
    while i + 2 <= data.len()
        invariant
            data@.len() <= 0xFFFF,
            i % 2 == 0,
            i <= data@.len(),
            sum == sum_of_words(data@.take(i as int)),
        decreases data@.len() - i,
    {
        proof {
            lemma_sum_of_words_nonneg(data@.take(i as int));
            lemma_sum_of_words_bound(data@.take(i as int));
            lemma_sum_of_words_append_pair(data@.take(i as int), data@[i as int], data@[
                i as int
            + 1]);
            assert(data@.take(i as int) + seq![data@[i as int], data@[i as int + 1]] =~= data@.take(
                i as int + 2,
            ));
        }
        let hi = data[i] as u32;
        let lo = data[i + 1] as u32;
        sum = sum + (hi * 256 + lo);
        i = i + 2;
    }
    if i < data.len() {
        proof {
            lemma_sum_of_words_nonneg(data@.take(i as int));
            lemma_sum_of_words_bound(data@.take(i as int));
            lemma_sum_of_words_append_one(data@.take(i as int), data@[i as int]);
            assert(data@.take(i as int).push(data@[i as int]) =~= data@);
        }
        sum = sum + (data[i] as u32) * 256;
    } else {
        proof {
            assert(data@.take(i as int) =~= data@);
        }
    }
    proof {
        lemma_sum_of_words_nonneg(data@);
    }
    proof {
        assert((sum & 0xFFFF) + (sum >> 16) == (sum as int) % 0x10000 + (sum as int) / 0x10000
            && (sum & 0xFFFF) + (sum >> 16) <= 0x1FFFE) by (bit_vector);
    }
    let s1: u32 = (sum & 0xFFFF) + (sum >> 16);
    proof {
        assert((s1 & 0xFFFF) + (s1 >> 16) == (s1 as int) % 0x10000 + (s1 as int) / 0x10000 && (s1
            <= 0x1FFFE ==> (s1 & 0xFFFF) + (s1 >> 16) <= 0xFFFF)) by (bit_vector);
    }
    let s2: u32 = (s1 & 0xFFFF) + (s1 >> 16);
    proof {
        assert(s2 <= 0xFFFF ==> !s2 as u16 == 0xFFFF - s2) by (bit_vector);
    }
    let r: u16 = #[verifier::truncate] (!s2 as u16);
    r
}

/// Checks a received payload against the checksum carried on the wire.
pub fn verify(data: &[u8], wire: u16) -> (r: bool)
    requires
        data@.len() <= 0xFFFF,
    ensures
        r == checksum_matches(data@, wire),
{
    let computed = calculate_checksum(data);
    computed == wire
}

/// A freshly computed checksum always verifies against its own payload.
pub proof fn lemma_verify_of_checksum(data: Seq<u8>)
    ensures
        checksum_matches(data, checksum16(data)),
{
}

proof fn lemma_sum_of_words_update(p: Seq<u8>, i: int, b: u8)
    requires
        0 <= i < p.len(),
    ensures
        sum_of_words(p.update(i, b)) == sum_of_words(p) + ((b as int) - (p[i] as int)) * (if i % 2
            == 0 {
            256int
        } else {
            1int
        }),
    decreases p.len(),
{
    let p2 = p.update(i, b);
    if p.len() == 1 {
        assert(p2.len() == 1 && p2[0] == b);
    } else if i == 0 {
        assert(p2.skip(2) =~= p.skip(2));
        assert(p2[0] == b && p2[1] == p[1]);
    } else if i == 1 {
        assert(p2.skip(2) =~= p.skip(2));
        assert(p2[0] == p[0] && p2[1] == b);
    } else {
        assert(p2.skip(2) =~= p.skip(2).update(i - 2, b));
        lemma_sum_of_words_update(p.skip(2), i - 2, b);
        assert((i - 2) % 2 == i % 2) by {
            vstd::arithmetic::div_mod::lemma_mod_sub_multiples_vanish(i, 2);
        }
        assert(p.skip(2)[i - 2] == p[i]);
    }
}

proof fn lemma_fold16_congruence(s: int)
    requires
        s >= 0,
    ensures
        fold16(s) % 0xFFFF == s % 0xFFFF,
        0 <= fold16(s),
{
    vstd::arithmetic::div_mod::lemma_fundamental_div_mod(s, 0x10000);
    let q = s / 0x10000;
    let r = s % 0x10000;
    assert(q >= 0) by {
        vstd::arithmetic::div_mod::lemma_div_pos_is_pos(s, 0x10000);
    }
    assert(fold16(s) == r + q);
    assert(s == 0xFFFF * q + (r + q));
    vstd::arithmetic::div_mod::lemma_mod_multiples_vanish(q, r + q, 0xFFFF);
}

proof fn lemma_fold2_range(s: int)
    requires
        0 <= s < 0x1_0000_0000,
    ensures
        0 <= fold16(fold16(s)) <= 0xFFFF,
{
    vstd::arithmetic::div_mod::lemma_fundamental_div_mod(s, 0x10000);
    assert(s / 0x10000 <= 0xFFFF) by {
        vstd::arithmetic::div_mod::lemma_div_is_ordered(s, 0xFFFF_FFFF, 0x10000);
        vstd::arithmetic::div_mod::lemma_fundamental_div_mod_converse(
            0xFFFF_FFFF,
            0x10000,
            0xFFFF,
            0xFFFF,
        );
    }
    let s1 = fold16(s);
    assert(0 <= s1 <= 0x1FFFE);
    vstd::arithmetic::div_mod::lemma_fundamental_div_mod(s1, 0x10000);
    assert(s1 / 0x10000 <= 1) by {
        vstd::arithmetic::div_mod::lemma_div_is_ordered(s1, 0x1FFFE, 0x10000);
        vstd::arithmetic::div_mod::lemma_fundamental_div_mod_converse(0x1FFFE, 0x10000, 1, 0xFFFE);
    }
    assert(s1 / 0x10000 >= 0) by {
        vstd::arithmetic::div_mod::lemma_div_pos_is_pos(s1, 0x10000);
    }
}

/// Single-bit corruption is detected: flipping any one bit of a
/// payload changes its checksum, so the corrupted frame fails the
/// check against the checksum carried on the wire, is discarded, and
/// its sequence number is requested again.
pub proof fn lemma_bit_flip_detected(p: Seq<u8>, i: int, k: u8)
    requires
        0 <= i < p.len(),
        p.len() <= 0xFFFF,
        k <= 7,
    ensures
        p.update(i, p[i] ^ (1u8 << k)) != p,
        checksum16(p.update(i, p[i] ^ (1u8 << k))) != checksum16(p),
{
    let b = p[i];
    let b2 = b ^ (1u8 << k);
    let p2 = p.update(i, b2);
    assert(b2 != b && 1 <= (1u8 << k) as int <= 128 && ((b2 as int) - (b as int) == (1u8
        << k) as int || (b as int) - (b2 as int) == (1u8 << k) as int)) by (bit_vector)
        requires
            b2 == b ^ (1u8 << k) && k <= 7,
    ;
    assert(p2[i] == b2);
    let w = if i % 2 == 0 {
        256
    } else {
        1
    };
    lemma_sum_of_words_update(p, i, b2);
    let s1 = sum_of_words(p);
    let s2 = sum_of_words(p2);
    let d = ((b2 as int) - (b as int)) * w;
    assert(s2 == s1 + d);
    assert(1 <= w <= 256);
    assert(d != 0 && -0x8000 <= d <= 0x8000) by {
        let e = (b2 as int) - (b as int);
        assert(-128 <= e <= 128 && e != 0);
        vstd::arithmetic::mul::lemma_mul_inequality(e, 128, w);
        vstd::arithmetic::mul::lemma_mul_inequality(-128, e, w);
        assert(w == 256 ==> (128 * w == 0x8000 && -128 * w == -0x8000));
        assert(w == 1 ==> (128 * w == 128 && -128 * w == -128));
        assert(e * w != 0) by {
            if e > 0 {
                vstd::arithmetic::mul::lemma_mul_inequality(1, e, w);
            } else {
                vstd::arithmetic::mul::lemma_mul_inequality(e, -1, w);
            }
        }
    }
    lemma_sum_of_words_nonneg(p);
    lemma_sum_of_words_nonneg(p2);
    lemma_sum_of_words_bound(p);
    lemma_sum_of_words_bound(p2);
    assert(s1 < 0x1_0000_0000 && s2 < 0x1_0000_0000) by {
        let h = (p.len() + 1) as int / 2;
        assert(h <= 0x8000 && (p2.len() + 1) as int / 2 == h) by {
            vstd::arithmetic::div_mod::lemma_div_is_ordered((p.len() + 1) as int, 0x10000, 2);
            vstd::arithmetic::div_mod::lemma_fundamental_div_mod_converse(0x10000, 2, 0x8000, 0);
        }
        vstd::arithmetic::mul::lemma_mul_inequality(h, 0x8000, 0xFFFF);
    }
    let f1 = fold16(fold16(s1));
    let f2 = fold16(fold16(s2));
    lemma_fold2_range(s1);
    lemma_fold2_range(s2);
    if checksum16(p2) == checksum16(p) {
        assert((0xFFFF - f1) as u16 == (0xFFFF - f2) as u16);
        assert(f1 == f2);
        lemma_fold16_congruence(s1);
        lemma_fold16_congruence(fold16(s1));
        lemma_fold16_congruence(s2);
        lemma_fold16_congruence(fold16(s2));
        assert(s1 % 0xFFFF == s2 % 0xFFFF);
        vstd::arithmetic::div_mod::lemma_fundamental_div_mod(s1, 0xFFFF);
        vstd::arithmetic::div_mod::lemma_fundamental_div_mod(s2, 0xFFFF);
        let q1 = s1 / 0xFFFF;
        let q2 = s2 / 0xFFFF;
        assert(d == 0xFFFF * (q2 - q1));
        if q2 > q1 {
            assert(0xFFFF * (q2 - q1) >= 0xFFFF) by {
                vstd::arithmetic::mul::lemma_mul_inequality(1, q2 - q1, 0xFFFF);
            }
        } else if q2 < q1 {
            assert(0xFFFF * (q2 - q1) <= -0xFFFF) by {
                vstd::arithmetic::mul::lemma_mul_inequality(q2 - q1, -1, 0xFFFF);
            }
        }
        assert(false);
    }
}

} // verus!
