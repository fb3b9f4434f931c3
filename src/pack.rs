//! Cutting samples to their top bits and packing them MSB-first.

use vstd::prelude::*;

use crate::error::ConvertError;

verus! {

/// Bit `b` of `x`, counted from the most significant bit (`0 <= b < 8`).
pub open spec fn msb_bit(x: u8, b: int) -> bool {
    (x >> (7 - b) as u8) & 1 == 1
}

/// Bit `k` of the packed stream: the top `d` bits of each sample, one sample
/// after the other, most significant bit first; past the last sample, zero.
pub open spec fn stream_bit(s: Seq<u8>, d: nat, k: int) -> bool {
    0 <= k < s.len() * d && d > 0 && msb_bit(s[k / d as int], k % d as int)
}

/// The number of bytes that `n` samples of `d` bits fill.
pub open spec fn packed_len(n: nat, d: nat) -> nat {
    (n * d + 7) / 8
}

/// `r` is the packing of `s` at depth `d`: bit `b` of byte `j` is bit
/// `8 * j + b` of the stream.
pub open spec fn is_packing(s: Seq<u8>, d: nat, r: Seq<u8>) -> bool {
    &&& r.len() == packed_len(s.len(), d)
    &&& forall|j: int, b: int|
        0 <= j < r.len() && 0 <= b < 8 ==> #[trigger] msb_bit(r[j], b) == stream_bit(
            s,
            d,
            8 * j + b,
        )
}

proof fn lemma_zero_bits(b: u8)
    ensures
        (0u8 >> b) & 1 != 1,
{
    assert((0u8 >> b) & 1 != 1) by (bit_vector);
}

/// OR-ing a sample's top `d` bits into a byte at offset `m`, when they fit.
proof fn lemma_or_inside(r: u8, x: u8, d: u8, m: u8, b: u8)
    requires
        1 <= d <= 8,
        m < 8,
        m + d <= 8,
        b < 8,
    ensures
        (((r | ((x >> (8 - d) as u8) << (8 - d - m) as u8)) >> (7 - b) as u8) & 1 == 1) == (((r
            >> (7 - b) as u8) & 1 == 1) || (m <= b && b < m + d && ((x >> (7 - b + m) as u8) & 1
            == 1))),
{
    assert((((r | ((x >> (8 - d) as u8) << (8 - d - m) as u8)) >> (7 - b) as u8) & 1 == 1) == (((r
        >> (7 - b) as u8) & 1 == 1) || (m <= b && b < m + d && ((x >> (7 - b + m) as u8) & 1
        == 1)))) by (bit_vector)
        requires
            1 <= d <= 8,
            m < 8,
            m + d <= 8,
            b < 8,
    ;
}

/// The leading part of a sample that crosses into the next byte.
proof fn lemma_or_head(r: u8, x: u8, d: u8, m: u8, b: u8)
    requires
        d <= 8,
        m < 8,
        m + d > 8,
        b < 8,
    ensures
        (((r | ((x >> (8 - d) as u8) >> (d - (8 - m) as u8) as u8)) >> (7 - b) as u8) & 1 == 1)
            == (((r >> (7 - b) as u8) & 1 == 1) || (m <= b && ((x >> (7 - b + m) as u8) & 1
            == 1))),
{
    assert((((r | ((x >> (8 - d) as u8) >> (d - (8 - m) as u8) as u8)) >> (7 - b) as u8) & 1 == 1)
        == (((r >> (7 - b) as u8) & 1 == 1) || (m <= b && ((x >> (7 - b + m) as u8) & 1
        == 1)))) by (bit_vector)
        requires
            d <= 8,
            m < 8,
            m + d > 8,
            b < 8,
    ;
}

/// The trailing part of a sample that crosses into the next byte.
proof fn lemma_or_tail(r: u8, x: u8, d: u8, m: u8, b: u8)
    requires
        d <= 8,
        m < 8,
        m + d > 8,
        b < 8,
    ensures
        (((r | ((x >> (8 - d) as u8) << (8 - (d - (8 - m) as u8)) as u8)) >> (7 - b) as u8) & 1
            == 1) == (((r >> (7 - b) as u8) & 1 == 1) || (b < m + d - 8 && ((x >> (m - 1
            - b) as u8) & 1 == 1))),
{
    assert((((r | ((x >> (8 - d) as u8) << (8 - (d - (8 - m) as u8)) as u8)) >> (7 - b) as u8) & 1
        == 1) == (((r >> (7 - b) as u8) & 1 == 1) || (b < m + d - 8 && ((x >> (m - 1
        - b) as u8) & 1 == 1)))) by (bit_vector)
        requires
            d <= 8,
            m < 8,
            m + d > 8,
            b < 8,
    ;
}

/// How the stream grows when sample `i` is added to the first `i` samples.
proof fn lemma_stream_step(s: Seq<u8>, d: nat, i: int, k: int)
    requires
        1 <= d <= 8,
        0 <= i < s.len(),
        0 <= k,
    ensures
        k < i * d ==> stream_bit(s.take(i + 1), d, k) == stream_bit(s.take(i), d, k),
        i * d <= k < (i + 1) * d ==> stream_bit(s.take(i + 1), d, k) == msb_bit(s[i], k - i * d),
        k >= (i + 1) * d ==> !stream_bit(s.take(i + 1), d, k),
        k >= i * d ==> !stream_bit(s.take(i), d, k),
{
    let di = d as int;
    if k < i * di {
        assert(k / di < i) by (nonlinear_arith)
            requires
                k < i * di,
                di >= 1,
                0 <= k,
        ;
        assert(0 <= k / di) by (nonlinear_arith)
            requires
                di >= 1,
                0 <= k,
        ;
        assert(i * di <= (i + 1) * di) by (nonlinear_arith)
            requires
                di >= 1,
        ;
    } else if k < (i + 1) * di {
        assert(k / di == i && k % di == k - i * di) by (nonlinear_arith)
            requires
                i * di <= k < (i + 1) * di,
                di >= 1,
        ;
    }
    assert(i * di <= (i + 1) * di) by (nonlinear_arith)
        requires
            di >= 1,
    ;
}

/// Cuts each sample to its top `depth` bits and packs the results densely,
/// most significant bit first; the pad bits of the last byte are zero.
pub fn pack_samples(samples: &Vec<u8>, depth: u32) -> (r: Result<Vec<u8>, ConvertError>)
    ensures
        r is Err <==> !(1 <= depth <= 8),
        r is Err ==> r->Err_0 == ConvertError::InvalidBitDepth,
        r is Ok ==> is_packing(samples@, depth as nat, r->Ok_0@),
{
    if depth == 0 || depth > 8 {
        return Err(ConvertError::InvalidBitDepth);
    }
    let d: u8 = depth as u8;
    let ghost s = samples@;
    let mut r: Vec<u8> = Vec::new();
    // The bit offset `i * d` of the next sample, as a byte index and a bit
    // offset within that byte.
    let mut q: usize = 0;
    let mut m: u8 = 0;
    let mut i: usize = 0;
    proof {
        assert(s.take(0).len() == 0);
    }
    while i < samples.len()
        invariant
            1 <= d <= 8,
            d == depth,
            s == samples@,
            0 <= i <= s.len(),
            m < 8,
            q * 8 + m == i * d,
            is_packing(s.take(i as int), d as nat, r@),
        decreases s.len() - i,
    {
        let x: u8 = samples[i];
        let value: u8 = x >> (8 - d);
        let ghost di = d as int;
        let ghost ii = i as int;
        proof {
            assert(r@.len() == (ii * di + 7) / 8);
            assert(m == 0 ==> r@.len() == q);
            assert(m > 0 ==> r@.len() == q + 1);
        }
        if r.len() <= q {
            r.push(0);
        }
        proof {
            assert forall|j: int, b: int| 0 <= j < r@.len() && 0 <= b < 8 implies #[trigger] msb_bit(
                r@[j],
                b,
            ) == stream_bit(s.take(ii), di as nat, 8 * j + b) by {
                if j == q && m == 0 {
                    lemma_zero_bits((7 - b) as u8);
                    lemma_stream_step(s, di as nat, ii, 8 * j + b);
                }
            }
        }
        let ghost r0 = r@;
        let bits_left: u8 = 8 - m;
        if bits_left < d {
            r.push(0);
            let overflow: u8 = d - bits_left;
            let head: u8 = r[q] | (value >> overflow);
            r.set(q, head);
            let tail: u8 = r[q + 1] | (value << (8 - overflow));
            r.set(q + 1, tail);
        } else {
            let inside: u8 = r[q] | (value << (8 - d - m));
            r.set(q, inside);
        }
        proof {
            let s1 = s.take(ii + 1);
            assert(s1.len() == ii + 1);
            assert((ii + 1) * di == ii * di + di) by (nonlinear_arith);
            assert(r@.len() == ((ii + 1) * di + 7) / 8);
            assert forall|j: int, b: int| 0 <= j < r@.len() && 0 <= b < 8 implies #[trigger] msb_bit(
                r@[j],
                b,
            ) == stream_bit(s1, di as nat, 8 * j + b) by {
                lemma_stream_step(s, di as nat, ii, 8 * j + b);
                assert(s[ii] == x);
                if j < q {
                    assert(r@[j] == r0[j]);
                } else if j == q {
                    assert(msb_bit(r0[j], b) == stream_bit(s.take(ii), di as nat, 8 * j + b));
                    if bits_left < d {
                        lemma_or_head(r0[j], x, d, m, b as u8);
                    } else {
                        lemma_or_inside(r0[j], x, d, m, b as u8);
                    }
                } else {
                    lemma_zero_bits((7 - b) as u8);
                    lemma_or_tail(0, x, d, m, b as u8);
                }
            }
        }
        m = m + d;
        if m >= 8 {
            m = m - 8;
            q = q + 1;
        }
        i = i + 1;
    }
    proof {
        assert(s.take(s.len() as int) =~= s);
    }
    Ok(r)
}

proof fn lemma_same_bits_same_byte(x: u8, y: u8)
    requires
        forall|b: int| 0 <= b < 8 ==> #[trigger] msb_bit(x, b) == msb_bit(y, b),
    ensures
        x == y,
{
    assert(msb_bit(x, 0) == msb_bit(y, 0));
    assert(msb_bit(x, 1) == msb_bit(y, 1));
    assert(msb_bit(x, 2) == msb_bit(y, 2));
    assert(msb_bit(x, 3) == msb_bit(y, 3));
    assert(msb_bit(x, 4) == msb_bit(y, 4));
    assert(msb_bit(x, 5) == msb_bit(y, 5));
    assert(msb_bit(x, 6) == msb_bit(y, 6));
    assert(msb_bit(x, 7) == msb_bit(y, 7));
    assert(x == y) by (bit_vector)
        requires
            ((x >> 7u8) & 1 == 1) == ((y >> 7u8) & 1 == 1),
            ((x >> 6u8) & 1 == 1) == ((y >> 6u8) & 1 == 1),
            ((x >> 5u8) & 1 == 1) == ((y >> 5u8) & 1 == 1),
            ((x >> 4u8) & 1 == 1) == ((y >> 4u8) & 1 == 1),
            ((x >> 3u8) & 1 == 1) == ((y >> 3u8) & 1 == 1),
            ((x >> 2u8) & 1 == 1) == ((y >> 2u8) & 1 == 1),
            ((x >> 1u8) & 1 == 1) == ((y >> 1u8) & 1 == 1),
            ((x >> 0u8) & 1 == 1) == ((y >> 0u8) & 1 == 1),
    ;
}

/// A packing holds `ceil(n * d / 8)` bytes for `n` samples at depth `d`.
pub proof fn lemma_packed_length(s: Seq<u8>, d: nat, r: Seq<u8>)
    requires
        1 <= d <= 8,
        is_packing(s, d, r),
    ensures
        r.len() * 8 >= s.len() * d,
        r.len() * 8 < s.len() * d + 8,
{
}

/// Samples and a depth have exactly one packing.
pub proof fn lemma_packing_unique(s: Seq<u8>, d: nat, r1: Seq<u8>, r2: Seq<u8>)
    requires
        is_packing(s, d, r1),
        is_packing(s, d, r2),
    ensures
        r1 == r2,
{
    assert forall|j: int| 0 <= j < r1.len() implies r1[j] == r2[j] by {
        assert forall|b: int| 0 <= b < 8 implies #[trigger] msb_bit(r1[j], b) == msb_bit(
            r2[j],
            b,
        ) by {
            assert(msb_bit(r1[j], b) == stream_bit(s, d, 8 * j + b));
            assert(msb_bit(r2[j], b) == stream_bit(s, d, 8 * j + b));
        }
        lemma_same_bits_same_byte(r1[j], r2[j]);
    }
    assert(r1 =~= r2);
}

/// At depth 8 the packing is the samples themselves.
pub proof fn lemma_depth_eight_is_identity(s: Seq<u8>, r: Seq<u8>)
    requires
        is_packing(s, 8, r),
    ensures
        r == s,
{
    assert(r.len() == s.len());
    assert forall|j: int| 0 <= j < r.len() implies r[j] == s[j] by {
        assert forall|b: int| 0 <= b < 8 implies #[trigger] msb_bit(r[j], b) == msb_bit(
            s[j],
            b,
        ) by {
            assert(msb_bit(r[j], b) == stream_bit(s, 8, 8 * j + b));
            assert((8 * j + b) / 8 == j && (8 * j + b) % 8 == b);
        }
        lemma_same_bits_same_byte(r[j], s[j]);
    }
    assert(r =~= s);
}

} // verus!
