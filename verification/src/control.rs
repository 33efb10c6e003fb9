//! The control-message grammar: the ASCII text the receiver sends and
//! the sender parses.
//!
//! `GET /<filename>` or `GET /<filename>?start=<n>` opens a transfer;
//! `RETRANSMIT <n>[,<n>...]` asks for specific frames again; the
//! sender's replies to bad requests begin with `ERROR: `.  Everything
//! here works on the raw datagram bytes.

use vstd::prelude::*;

verus! {

/// Whether the byte is an ASCII decimal digit.
pub open spec fn spec_is_digit(b: u8) -> bool {
    48 <= b <= 57
}

/// Whether every byte of the sequence is an ASCII decimal digit.
pub open spec fn spec_all_digits(s: Seq<u8>) -> bool {
    forall|j: int| 0 <= j < s.len() ==> spec_is_digit(#[trigger] s[j])
}

/// The number a run of ASCII digits denotes, most significant first.
pub open spec fn spec_dec_value(s: Seq<u8>) -> int
    decreases s.len(),
{
    if s.len() == 0 {
        0
    } else {
        spec_dec_value(s.drop_last()) * 10 + (s.last() - 48)
    }
}

/// The shortest ASCII decimal rendering of a number.
pub open spec fn spec_decimal(n: int) -> Seq<u8>
    recommends
        n >= 0,
    decreases n,
{
    if n < 10 {
        seq![(48 + n) as u8]
    } else {
        spec_decimal(n / 10) + seq![(48 + n % 10) as u8]
    }
}

/// What a token parses to: its value, if it is one or more digits
/// denoting a number a 32-bit sequence field can hold.
pub open spec fn spec_parse_u32(s: Seq<u8>) -> Option<u32> {
    if s.len() >= 1 && spec_all_digits(s) && spec_dec_value(s) <= 0xFFFF_FFFF {
        Some(spec_dec_value(s) as u32)
    } else {
        None
    }
}

pub proof fn lemma_dec_value_nonneg(s: Seq<u8>)
    requires
        spec_all_digits(s),
    ensures
        spec_dec_value(s) >= 0,
    decreases s.len(),
{
    if s.len() > 0 {
        assert(spec_all_digits(s.drop_last())) by {
            assert(forall|j: int|
                0 <= j < s.len() - 1 ==> #[trigger] s.drop_last()[j] == s[j]);
        }
        lemma_dec_value_nonneg(s.drop_last());
    }
}

/// The decimal rendering of a non-negative number is one or more
/// digits and denotes the number itself.
pub proof fn lemma_decimal_of_value(n: int)
    requires
        n >= 0,
    ensures
        spec_decimal(n).len() >= 1,
        spec_all_digits(spec_decimal(n)),
        spec_dec_value(spec_decimal(n)) == n,
    decreases n,
{
    if n < 10 {
        reveal_with_fuel(spec_dec_value, 2);
        assert(spec_decimal(n) =~= seq![(48 + n) as u8]);
        assert(spec_decimal(n).drop_last() =~= Seq::<u8>::empty());
    } else {
        lemma_decimal_of_value(n / 10);
        let d = spec_decimal(n / 10);
        let w = spec_decimal(n);
        assert(w == d + seq![(48 + n % 10) as u8]);
        assert(w.drop_last() =~= d);
        assert(w.last() == (48 + n % 10) as u8);
        assert(spec_all_digits(w)) by {
            assert(forall|j: int| 0 <= j < d.len() ==> #[trigger] w[j] == d[j]);
        }
        assert(spec_dec_value(w) == spec_dec_value(d) * 10 + (n % 10));
    }
}

/// Index of the first occurrence of a byte, or the sequence's length
/// when it does not occur.
pub open spec fn spec_find_byte(s: Seq<u8>, c: u8) -> int
    decreases s.len(),
{
    if s.len() == 0 {
        0
    } else if s[0] == c {
        0
    } else {
        1 + spec_find_byte(s.drop_first(), c)
    }
}

pub proof fn lemma_find_byte_props(s: Seq<u8>, c: u8)
    ensures
        0 <= spec_find_byte(s, c) <= s.len(),
        spec_find_byte(s, c) < s.len() ==> s[spec_find_byte(s, c)] == c,
        forall|j: int| 0 <= j < spec_find_byte(s, c) ==> s[j] != c,
    decreases s.len(),
{
    if s.len() == 0 {
    } else if s[0] == c {
    } else {
        lemma_find_byte_props(s.drop_first(), c);
        assert forall|j: int| 0 <= j < spec_find_byte(s, c) implies s[j] != c by {
            if j >= 1 {
                assert(s.drop_first()[j - 1] == s[j]);
            }
        }
    }
}

/// The first-occurrence index is the unique position with no earlier
/// hit that either holds the byte or is the end.
pub proof fn lemma_find_byte_unique(s: Seq<u8>, c: u8, k: int)
    requires
        0 <= k <= s.len(),
        k < s.len() ==> s[k] == c,
        forall|j: int| 0 <= j < k ==> s[j] != c,
    ensures
        spec_find_byte(s, c) == k,
{
    lemma_find_byte_props(s, c);
    let f = spec_find_byte(s, c);
    if f < k {
        assert(s[f] == c);
    } else if k < f {
        assert(s[k] != c);
    }
}

/// Scans for a byte from a given position; hands back the index of the
/// first hit, or the total length when there is none.
fn find_byte(buf: &[u8], from: usize, c: u8) -> (r: usize)
    requires
        from <= buf@.len(),
    ensures
        from <= r <= buf@.len(),
        r as int - from == spec_find_byte(buf@.skip(from as int), c),
        r < buf@.len() ==> buf@[r as int] == c,
        forall|j: int| from <= j < r ==> buf@[j] != c,
{
    let n = buf.len();
    let mut i: usize = from;
    while i < n
        invariant
            from <= i <= n,
            n == buf@.len(),
            forall|j: int| from <= j < i ==> buf@[j] != c,
        decreases n - i,
    {
        if *vstd::slice::slice_index_get(buf, i) == c {
            proof {
                let s = buf@.skip(from as int);
                assert(forall|j: int| 0 <= j < s.len() ==> s[j] == buf@[j + from]);
                lemma_find_byte_unique(s, c, i as int - from);
            }
            return i;
        }
        i = i + 1;
    }
    proof {
        let s = buf@.skip(from as int);
        assert(forall|j: int| 0 <= j < s.len() ==> s[j] == buf@[j + from]);
        lemma_find_byte_unique(s, c, n as int - from);
    }
    n
}

/// Parses the digits in `buf[from .. to]` as a 32-bit number, exactly
/// as `spec_parse_u32` reads that range.
fn parse_decimal_token(buf: &[u8], from: usize, to: usize) -> (r: Option<u32>)
    requires
        from <= to <= buf@.len(),
    ensures
        r == spec_parse_u32(buf@.subrange(from as int, to as int)),
{
    let ghost tok = buf@.subrange(from as int, to as int);
    if from == to {
        return None;
    }
    let mut acc: u64 = 0;
    let mut over = false;
    let mut i: usize = from;
    while i < to
        invariant
            from <= i <= to <= buf@.len(),
            tok == buf@.subrange(from as int, to as int),
            spec_all_digits(buf@.subrange(from as int, i as int)),
            !over ==> acc == spec_dec_value(buf@.subrange(from as int, i as int)) && acc
                <= 0xFFFF_FFFF,
            over ==> spec_dec_value(buf@.subrange(from as int, i as int)) > 0xFFFF_FFFF,
        decreases to - i,
    {
        let b = *vstd::slice::slice_index_get(buf, i);
        if b < 48 || b > 57 {
            proof {
                assert(tok[i as int - from] == b);
                assert(!spec_is_digit(tok[i as int - from]));
            }
            return None;
        }
        proof {
            let prev = buf@.subrange(from as int, i as int);
            let cur = buf@.subrange(from as int, i as int + 1);
            assert(cur.drop_last() =~= prev);
            assert(cur.last() == b);
            assert(spec_all_digits(cur)) by {
                assert(forall|j: int| 0 <= j < prev.len() ==> #[trigger] cur[j] == prev[j]);
            }
            if !over {
                lemma_dec_value_nonneg(prev);
            } else {
                lemma_dec_value_nonneg(cur);
            }
        }
        if !over {
            acc = acc * 10 + ((b - 48) as u64);
            if acc > 0xFFFF_FFFF {
                over = true;
            }
        }
        i = i + 1;
    }
    proof {
        assert(buf@.subrange(from as int, to as int) == tok);
    }
    if over {
        return None;
    }
    Some(acc as u32)
}

/// The numbers a comma-separated run of tokens denotes; a token that
/// is not a plain number in range is skipped.
pub open spec fn spec_parse_seq_list(s: Seq<u8>) -> Seq<u32>
    decreases s.len(),
{
    let k0 = spec_find_byte(s, 44);
    let k = if k0 < 0 {
        0
    } else if k0 > s.len() {
        s.len() as int
    } else {
        k0
    };
    let head = match spec_parse_u32(s.subrange(0, k)) {
        Some(v) => seq![v],
        None => Seq::<u32>::empty(),
    };
    if k >= s.len() {
        head
    } else {
        head + spec_parse_seq_list(s.skip(k + 1))
    }
}

/// Parses the comma-separated sequence numbers starting at `from`.
fn parse_seq_list(buf: &[u8], from: usize) -> (r: Vec<u32>)
    requires
        from <= buf@.len(),
    ensures
        r@ == spec_parse_seq_list(buf@.skip(from as int)),
{
    let mut out: Vec<u32> = Vec::new();
    let mut pos: usize = from;
    proof {
        assert(out@ + spec_parse_seq_list(buf@.skip(from as int)) =~= spec_parse_seq_list(
            buf@.skip(from as int),
        ));
    }
    loop
        invariant
            from <= pos <= buf@.len(),
            spec_parse_seq_list(buf@.skip(from as int)) == out@ + spec_parse_seq_list(
                buf@.skip(pos as int),
            ),
        ensures
            out@ == spec_parse_seq_list(buf@.skip(from as int)),
        decreases buf@.len() - pos,
    {
        let k = find_byte(buf, pos, 44);
        let ghost s = buf@.skip(pos as int);
        proof {
            lemma_find_byte_props(s, 44);
            assert(s.subrange(0, k as int - pos) =~= buf@.subrange(pos as int, k as int));
        }
        let token_value = parse_decimal_token(buf, pos, k);
        let ghost head = match spec_parse_u32(buf@.subrange(pos as int, k as int)) {
            Some(v) => seq![v],
            None => Seq::<u32>::empty(),
        };
        match token_value {
            Some(v) => {
                out.push(v);
            },
            None => {},
        }
        if k == buf.len() {
            proof {
                assert(spec_parse_seq_list(s) == head);
                assert(out@ =~= spec_parse_seq_list(buf@.skip(from as int)));
            }
            return out;
        }
        proof {
            assert(spec_find_byte(s, 44) < s.len());
            assert(s.skip(k as int - pos + 1) =~= buf@.skip(k as int + 1));
            assert(spec_parse_seq_list(s) == head + spec_parse_seq_list(buf@.skip(k as int + 1)));
        }
        pos = k + 1;
        proof {
            assert(spec_parse_seq_list(buf@.skip(from as int)) =~= out@ + spec_parse_seq_list(
                buf@.skip(pos as int),
            ));
        }
    }
}

/// The ASCII bytes of `GET /`.
pub open spec fn spec_get_prefix() -> Seq<u8> {
    seq![71u8, 69u8, 84u8, 32u8, 47u8]
}

/// The ASCII bytes of `?start=`.
pub open spec fn spec_start_suffix() -> Seq<u8> {
    seq![63u8, 115u8, 116u8, 97u8, 114u8, 116u8, 61u8]
}

/// The ASCII bytes of `RETRANSMIT `.
pub open spec fn spec_retransmit_prefix() -> Seq<u8> {
    seq![82u8, 69u8, 84u8, 82u8, 65u8, 78u8, 83u8, 77u8, 73u8, 84u8, 32u8]
}

/// The ASCII bytes of `ERROR: `.
pub open spec fn spec_error_message_prefix() -> Seq<u8> {
    seq![69u8, 82u8, 82u8, 79u8, 82u8, 58u8, 32u8]
}

/// Whether the sequence begins with the given prefix.
pub open spec fn spec_starts_with(b: Seq<u8>, p: Seq<u8>) -> bool {
    b.len() >= p.len() && b.subrange(0, p.len() as int) == p
}

/// The decimal renderings of the sequence numbers, comma-separated.
pub open spec fn spec_join_decimals(seqs: Seq<u32>) -> Seq<u8>
    decreases seqs.len(),
{
    if seqs.len() == 0 {
        Seq::empty()
    } else if seqs.len() == 1 {
        spec_decimal(seqs[0] as int)
    } else {
        spec_decimal(seqs[0] as int) + seq![44u8] + spec_join_decimals(seqs.drop_first())
    }
}

/// The text of a selective-repeat request for the given sequence
/// numbers.
pub open spec fn spec_retransmit_request(seqs: Seq<u32>) -> Seq<u8> {
    spec_retransmit_prefix() + spec_join_decimals(seqs)
}

/// The text that opens a transfer: the filename, and the start frame
/// when it is not zero.
pub open spec fn spec_get_request(filename: Seq<u8>, start: u32) -> Seq<u8> {
    if start == 0 {
        spec_get_prefix() + filename
    } else {
        spec_get_prefix() + filename + spec_start_suffix() + spec_decimal(start as int)
    }
}

/// The text of a sender error report.
pub open spec fn spec_error_message(reason: Seq<u8>) -> Seq<u8> {
    spec_error_message_prefix() + reason
}

/// Renders a sequence number as ASCII decimal digits.
pub fn u32_to_decimal(n: u32) -> (r: Vec<u8>)
    ensures
        r@ == spec_decimal(n as int),
    decreases n,
{
    if n < 10 {
        let mut v: Vec<u8> = Vec::new();
        v.push(48 + (n as u8));
        proof {
            assert(v@ =~= spec_decimal(n as int));
        }
        v
    } else {
        let mut v = u32_to_decimal(n / 10);
        v.push(48 + ((n % 10) as u8));
        proof {
            assert(v@ =~= spec_decimal(n as int));
        }
        v
    }
}

proof fn lemma_join_decimals_snoc(seqs: Seq<u32>, x: u32)
    ensures
        spec_join_decimals(seqs.push(x)) == spec_join_decimals(seqs) + (if seqs.len() > 0 {
            seq![44u8]
        } else {
            Seq::<u8>::empty()
        }) + spec_decimal(x as int),
    decreases seqs.len(),
{
    let sep = if seqs.len() > 0 {
        seq![44u8]
    } else {
        Seq::<u8>::empty()
    };
    if seqs.len() == 0 {
        assert(seqs.push(x) =~= seq![x]);
        assert(spec_join_decimals(seqs.push(x)) =~= spec_join_decimals(seqs) + sep + spec_decimal(
            x as int,
        ));
    } else if seqs.len() == 1 {
        reveal_with_fuel(spec_join_decimals, 3);
        assert(seqs.push(x).drop_first() =~= seq![x]);
        assert(spec_join_decimals(seqs.push(x)) =~= spec_join_decimals(seqs) + sep + spec_decimal(
            x as int,
        ));
    } else {
        lemma_join_decimals_snoc(seqs.drop_first(), x);
        assert(seqs.push(x).drop_first() =~= seqs.drop_first().push(x));
        assert(spec_join_decimals(seqs.push(x)) =~= spec_join_decimals(seqs) + sep + spec_decimal(
            x as int,
        ));
    }
}

/// Builds the text of one selective-repeat request.
pub fn build_retransmit_request(seqs: &Vec<u32>) -> (r: Vec<u8>)
    ensures
        r@ == spec_retransmit_request(seqs@),
{
    let mut out: Vec<u8> = Vec::new();
    out.push(82);
    out.push(69);
    out.push(84);
    out.push(82);
    out.push(65);
    out.push(78);
    out.push(83);
    out.push(77);
    out.push(73);
    out.push(84);
    out.push(32);
    proof {
        assert(seqs@.take(0) =~= Seq::<u32>::empty());
        assert(out@ =~= spec_retransmit_prefix() + spec_join_decimals(seqs@.take(0)));
    }
    let mut i: usize = 0;
    while i < seqs.len()
        invariant
            i <= seqs@.len(),
            out@ == spec_retransmit_prefix() + spec_join_decimals(seqs@.take(i as int)),
        decreases seqs@.len() - i,
    {
        if i > 0 {
            out.push(44);
        }
        let mut digits = u32_to_decimal(seqs[i]);
        out.append(&mut digits);
        proof {
            lemma_join_decimals_snoc(seqs@.take(i as int), seqs@[i as int]);
            assert(seqs@.take(i as int).push(seqs@[i as int]) =~= seqs@.take(i as int + 1));
            assert(out@ =~= spec_retransmit_prefix() + spec_join_decimals(
                seqs@.take(i as int + 1),
            ));
        }
        i = i + 1;
    }
    proof {
        assert(seqs@.take(seqs@.len() as int) =~= seqs@);
    }
    out
}

/// Builds the request that opens a transfer.
pub fn build_get_request(filename: &Vec<u8>, start_packet: u32) -> (r: Vec<u8>)
    ensures
        r@ == spec_get_request(filename@, start_packet),
{
    let mut out: Vec<u8> = Vec::new();
    out.push(71);
    out.push(69);
    out.push(84);
    out.push(32);
    out.push(47);
    let mut name = vstd::slice::slice_to_vec(filename.as_slice());
    out.append(&mut name);
    proof {
        assert(out@ =~= spec_get_prefix() + filename@);
    }
    if start_packet != 0 {
        out.push(63);
        out.push(115);
        out.push(116);
        out.push(97);
        out.push(114);
        out.push(116);
        out.push(61);
        let mut digits = u32_to_decimal(start_packet);
        out.append(&mut digits);
        proof {
            assert(out@ =~= spec_get_request(filename@, start_packet));
        }
    }
    out
}

/// Builds a sender error report.
pub fn build_error_message(reason: &Vec<u8>) -> (r: Vec<u8>)
    ensures
        r@ == spec_error_message(reason@),
        crate::receiver::spec_is_error_text(r@),
{
    let mut out: Vec<u8> = Vec::new();
    out.push(69);
    out.push(82);
    out.push(82);
    out.push(79);
    out.push(82);
    out.push(58);
    out.push(32);
    let mut r = vstd::slice::slice_to_vec(reason.as_slice());
    out.append(&mut r);
    proof {
        assert(out@ =~= spec_error_message(reason@));
        assert(out@.subrange(0, 5) =~= crate::receiver::spec_error_prefix());
    }
    out
}

/// A control message as the sender reads it.
pub enum Request {
    /// Open a transfer of the named file, from the given frame on
    /// (zero means from the beginning; the sender may ignore it).
    Get { filename: Vec<u8>, start_packet: u32 },
    /// Resend the named frames.
    Retransmit { seqs: Vec<u32> },
    /// Shaped like a transfer request but without a filename; answered
    /// with an error report.
    Malformed,
    /// Anything else; ignored.
    Unknown,
}

/// The start frame a transfer request names, zero when it names none.
pub open spec fn spec_get_start(rest: Seq<u8>) -> u32 {
    let q = spec_find_byte(rest, 63);
    if !(0 <= q < rest.len()) {
        0
    } else {
        let after = rest.skip(q + 1);
        if spec_starts_with(after, seq![115u8, 116u8, 97u8, 114u8, 116u8, 61u8]) {
            match spec_parse_u32(after.skip(6)) {
                Some(v) => v,
                None => 0,
            }
        } else {
            0
        }
    }
}

/// The filename a transfer request names: everything between `GET /`
/// and the first `?`, or the end.
pub open spec fn spec_get_filename(rest: Seq<u8>) -> Seq<u8> {
    let q = spec_find_byte(rest, 63);
    if 0 <= q <= rest.len() {
        rest.subrange(0, q)
    } else {
        rest
    }
}

/// Reads a control datagram: a `GET /` request with its filename and
/// optional start frame, a `RETRANSMIT` request with its sequence
/// numbers, a `GET /` with an empty filename (malformed), or text the
/// protocol does not know (ignored).
pub fn parse_request(buf: &[u8]) -> (r: Request)
    ensures
        ({
            let b = buf@;
            if spec_starts_with(b, spec_get_prefix()) {
                let rest = b.skip(5);
                if spec_get_filename(rest).len() == 0 {
                    r is Malformed
                } else {
                    r matches Request::Get { filename, start_packet } && filename@
                        == spec_get_filename(rest) && start_packet == spec_get_start(rest)
                }
            } else if spec_starts_with(b, spec_retransmit_prefix()) {
                r matches Request::Retransmit { seqs } && seqs@ == spec_parse_seq_list(b.skip(11))
            } else {
                r is Unknown
            }
        }),
{
    if starts_with_bytes(buf, &[71, 69, 84, 32, 47]) {
        proof {
            assert(buf@.subrange(0, 5) =~= spec_get_prefix());
        }
        let rest_start: usize = 5;
        let ghost rest = buf@.skip(5);
        let q = find_byte(buf, rest_start, 63);
        proof {
            lemma_find_byte_props(rest, 63);
            assert(spec_get_filename(rest) =~= buf@.subrange(5, q as int));
        }
        if q == rest_start {
            return Request::Malformed;
        }
        let filename: Vec<u8> = vstd::slice::slice_to_vec(
            vstd::slice::slice_subrange(buf, rest_start, q),
        );
        let mut start_packet: u32 = 0;
        if q < buf.len() {
            proof {
                assert(spec_find_byte(rest, 63) < rest.len());
            }
            let after_start = q + 1;
            let ghost after = rest.skip(q as int - 5 + 1);
            proof {
                assert(after =~= buf@.skip(after_start as int));
            }
            if buf.len() - after_start >= 6 && starts_with_at(buf, after_start, &[
                115,
                116,
                97,
                114,
                116,
                61,
            ]) {
                proof {
                    assert(after.subrange(0, 6) =~= seq![115u8, 116u8, 97u8, 114u8, 116u8, 61u8]);
                }
                match parse_decimal_token(buf, after_start + 6, buf.len()) {
                    Some(v) => {
                        start_packet = v;
                        proof {
                            assert(after.skip(6) =~= buf@.subrange(
                                after_start as int + 6,
                                buf@.len() as int,
                            ));
                        }
                    },
                    None => {
                        proof {
                            assert(after.skip(6) =~= buf@.subrange(
                                after_start as int + 6,
                                buf@.len() as int,
                            ));
                        }
                    },
                }
            } else {
                proof {
                    if after.len() >= 6 {
                        assert(after.subrange(0, 6) != seq![
                            115u8,
                            116u8,
                            97u8,
                            114u8,
                            116u8,
                            61u8,
                        ] ==> !spec_starts_with(
                            after,
                            seq![115u8, 116u8, 97u8, 114u8, 116u8, 61u8],
                        ));
                        if spec_starts_with(after, seq![115u8, 116u8, 97u8, 114u8, 116u8, 61u8]) {
                            assert(after.subrange(0, 6)[0] == after[0] && after.subrange(0, 6)[1]
                                == after[1] && after.subrange(0, 6)[2] == after[2] && after.subrange(
                                0,
                                6,
                            )[3] == after[3] && after.subrange(0, 6)[4] == after[4]
                                && after.subrange(0, 6)[5] == after[5]);
                        }
                    }
                }
            }
        }
        return Request::Get { filename, start_packet };
    }
    if starts_with_bytes(buf, &[82, 69, 84, 82, 65, 78, 83, 77, 73, 84, 32]) {
        proof {
            assert(buf@.subrange(0, 11) =~= spec_retransmit_prefix());
        }
        let seqs = parse_seq_list(buf, 11);
        return Request::Retransmit { seqs };
    }
    proof {
        if buf@.len() >= 5 && buf@.subrange(0, 5) == spec_get_prefix() {
            assert(buf@.subrange(0, 5)[0] == buf@[0] && buf@.subrange(0, 5)[1] == buf@[1]
                && buf@.subrange(0, 5)[2] == buf@[2] && buf@.subrange(0, 5)[3] == buf@[3]
                && buf@.subrange(0, 5)[4] == buf@[4]);
        }
        if buf@.len() >= 11 && buf@.subrange(0, 11) == spec_retransmit_prefix() {
            assert(forall|j: int| 0 <= j < 11 ==> buf@.subrange(0, 11)[j] == buf@[j]);
        }
    }
    Request::Unknown
}

/// Whether the datagram begins with the given bytes.
fn starts_with_bytes(buf: &[u8], prefix: &[u8]) -> (r: bool)
    ensures
        r == spec_starts_with(buf@, prefix@),
{
    proof {
        assert(buf@.skip(0) =~= buf@);
    }
    starts_with_at_or_fail(buf, 0, prefix)
}

/// Whether the datagram holds the given bytes starting at `at`.
fn starts_with_at(buf: &[u8], at: usize, prefix: &[u8]) -> (r: bool)
    requires
        at <= buf@.len(),
    ensures
        r == spec_starts_with(buf@.skip(at as int), prefix@),
{
    starts_with_at_or_fail(buf, at, prefix)
}

fn starts_with_at_or_fail(buf: &[u8], at: usize, prefix: &[u8]) -> (r: bool)
    requires
        at <= buf@.len(),
    ensures
        r == spec_starts_with(buf@.skip(at as int), prefix@),
{
    let n = buf.len();
    let m = prefix.len();
    let ghost s = buf@.skip(at as int);
    if n - at < m {
        return false;
    }
    let mut i: usize = 0;
    while i < m
        invariant
            i <= m,
            m == prefix@.len(),
            n == buf@.len(),
            at + m <= n,
            s == buf@.skip(at as int),
            forall|j: int| 0 <= j < i ==> s[j] == prefix@[j],
        decreases m - i,
    {
        if *vstd::slice::slice_index_get(buf, at + i) != *vstd::slice::slice_index_get(prefix, i) {
            proof {
                assert(s[i as int] == buf@[at as int + i]);
                assert(s.subrange(0, m as int) != prefix@) by {
                    if s.subrange(0, m as int) == prefix@ {
                        assert(s.subrange(0, m as int)[i as int] == s[i as int]);
                    }
                }
            }
            return false;
        }
        proof {
            assert(s[i as int] == buf@[at as int + i]);
        }
        i = i + 1;
    }
    proof {
        assert(s.subrange(0, m as int) =~= prefix@);
    }
    true
}

/// How many request datagrams a run of missing sequence numbers
/// needs, at most `MAX_PACKETS_PER_REQUEST` to a datagram.
pub open spec fn spec_num_batches(len: int) -> int {
    (len + (crate::MAX_PACKETS_PER_REQUEST as int) - 1) / (crate::MAX_PACKETS_PER_REQUEST as int)
}

/// The `b`-th batch of the missing sequence numbers.
pub open spec fn spec_batch(s: Seq<u32>, b: int) -> Seq<u32>
    recommends
        0 <= b < spec_num_batches(s.len() as int),
{
    let m = crate::MAX_PACKETS_PER_REQUEST as int;
    s.subrange(
        b * m,
        if (b + 1) * m <= s.len() {
            (b + 1) * m
        } else {
            s.len() as int
        },
    )
}

/// Splits the missing sequence numbers into batches of at most
/// `MAX_PACKETS_PER_REQUEST`, in ascending position, and renders one
/// retransmission request datagram per batch.  No missing numbers, no
/// datagrams.
pub fn build_retransmit_requests(missing: &Vec<u32>) -> (r: Vec<Vec<u8>>)
    ensures
        r@.len() == spec_num_batches(missing@.len() as int),
        forall|b: int|
            0 <= b < r@.len() ==> #[trigger] r@[b]@ == spec_retransmit_request(
                spec_batch(missing@, b),
            ),
{
    let len = missing.len();
    let mut out: Vec<Vec<u8>> = Vec::new();
    let mut offset: usize = 0;
    while offset < len
        invariant
            len == missing@.len(),
            offset == out@.len() * (crate::MAX_PACKETS_PER_REQUEST as int) || (offset == len && len
                <= out@.len() * (crate::MAX_PACKETS_PER_REQUEST as int)),
            offset <= len,
            out@.len() * (crate::MAX_PACKETS_PER_REQUEST as int) <= len + (
            crate::MAX_PACKETS_PER_REQUEST as int) - 1,
            forall|b: int|
                0 <= b < out@.len() ==> #[trigger] out@[b]@ == spec_retransmit_request(
                    spec_batch(missing@, b),
                ),
        decreases len - offset,
    {
        let end = if len - offset > crate::MAX_PACKETS_PER_REQUEST {
            offset + crate::MAX_PACKETS_PER_REQUEST
        } else {
            len
        };
        let batch: Vec<u32> = vstd::slice::slice_to_vec(
            vstd::slice::slice_subrange(missing.as_slice(), offset, end),
        );
        proof {
            assert(offset == out@.len() * (crate::MAX_PACKETS_PER_REQUEST as int));
            assert((out@.len() as int + 1) * (crate::MAX_PACKETS_PER_REQUEST as int) == out@.len()
                * (crate::MAX_PACKETS_PER_REQUEST as int) + (
            crate::MAX_PACKETS_PER_REQUEST as int)) by (nonlinear_arith);
            assert(batch@ =~= spec_batch(missing@, out@.len() as int));
        }
        let text = build_retransmit_request(&batch);
        out.push(text);
        offset = end;
    }
    proof {
        let k = out@.len() as int;
        let mm = crate::MAX_PACKETS_PER_REQUEST as int;
        assert(len <= k * mm);
        assert(k * mm <= len + mm - 1);
        vstd::arithmetic::div_mod::lemma_fundamental_div_mod_converse(
            len + mm - 1,
            mm,
            k,
            len + mm - 1 - k * mm,
        );
    }
    out
}

/// Parsing undoes building: the text `build_retransmit_request` emits
/// for any run of sequence numbers reads back as exactly that run.
pub proof fn lemma_parse_of_join(seqs: Seq<u32>)
    ensures
        spec_parse_seq_list(spec_join_decimals(seqs)) == seqs,
    decreases seqs.len(),
{
    let s = spec_join_decimals(seqs);
    if seqs.len() == 0 {
        assert(spec_find_byte(s, 44) == 0);
        assert(s.subrange(0, 0) =~= Seq::<u8>::empty());
        assert(spec_parse_seq_list(s) =~= seqs);
    } else if seqs.len() == 1 {
        let d = spec_decimal(seqs[0] as int);
        lemma_decimal_of_value(seqs[0] as int);
        lemma_find_byte_unique(s, 44, s.len() as int);
        assert(s.subrange(0, s.len() as int) =~= d);
        assert(spec_parse_u32(d) == Some(seqs[0]));
        assert(spec_parse_seq_list(s) =~= seqs);
    } else {
        let d = spec_decimal(seqs[0] as int);
        let rest = spec_join_decimals(seqs.drop_first());
        lemma_decimal_of_value(seqs[0] as int);
        lemma_parse_of_join(seqs.drop_first());
        assert(s == d + seq![44u8] + rest);
        assert(s[d.len() as int] == 44);
        assert(forall|j: int| 0 <= j < d.len() ==> #[trigger] s[j] == d[j]);
        lemma_find_byte_unique(s, 44, d.len() as int);
        assert(s.subrange(0, d.len() as int) =~= d);
        assert(spec_parse_u32(d) == Some(seqs[0]));
        assert(s.skip(d.len() as int + 1) =~= rest);
        assert(spec_parse_seq_list(s) == seq![seqs[0]] + seqs.drop_first());
        assert(seq![seqs[0]] + seqs.drop_first() =~= seqs);
    }
}

/// Parsing undoes building for transfer requests too: the text
/// `build_get_request` emits for a non-empty filename that holds no
/// `?` reads back as that filename and that start frame.
pub proof fn lemma_parse_of_get_request(filename: Seq<u8>, start: u32)
    requires
        filename.len() > 0,
        !filename.contains(63u8),
    ensures
        spec_starts_with(spec_get_request(filename, start), spec_get_prefix()),
        spec_get_filename(spec_get_request(filename, start).skip(5)) == filename,
        spec_get_start(spec_get_request(filename, start).skip(5)) == start,
{
    let b = spec_get_request(filename, start);
    assert(b.subrange(0, 5) =~= spec_get_prefix());
    let rest = b.skip(5);
    if start == 0 {
        assert(rest =~= filename);
        assert(forall|j: int| 0 <= j < rest.len() ==> rest[j] != 63) by {
            assert(forall|j: int|
                0 <= j < rest.len() && #[trigger] rest[j] == 63 ==> rest.contains(63u8));
        }
        lemma_find_byte_unique(rest, 63, rest.len() as int);
        assert(spec_get_filename(rest) =~= filename);
    } else {
        lemma_decimal_of_value(start as int);
        let digits = spec_decimal(start as int);
        assert(rest =~= filename + spec_start_suffix() + digits);
        let q = filename.len() as int;
        assert(rest[q] == 63);
        assert(forall|j: int| 0 <= j < q ==> #[trigger] rest[j] == filename[j]);
        assert(forall|j: int| 0 <= j < q ==> rest[j] != 63) by {
            assert(forall|j: int|
                0 <= j < q && #[trigger] filename[j] == 63 ==> filename.contains(63u8));
        }
        lemma_find_byte_unique(rest, 63, q);
        assert(spec_get_filename(rest) =~= filename);
        let after = rest.skip(q + 1);
        assert(after =~= seq![115u8, 116u8, 97u8, 114u8, 116u8, 61u8] + digits);
        assert(after.subrange(0, 6) =~= seq![115u8, 116u8, 97u8, 114u8, 116u8, 61u8]);
        assert(after.skip(6) =~= digits);
        assert(spec_parse_u32(digits) == Some(start));
    }
}

} // verus!
