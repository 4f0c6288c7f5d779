//! Facts about rounding, division into chunks and powers of two.

use vstd::prelude::*;
use vstd::arithmetic::power2::is_pow2;
use vstd::arithmetic::div_mod::*;

verus! {

/// The least multiple of `alignment` that is not below `x`.
pub open spec fn round_up(x: int, alignment: int) -> int {
    if x % alignment == 0 {
        x
    } else {
        x + alignment - x % alignment
    }
}

/// The number of chunks of `chunk` bytes that `bytes` bytes take up.
pub open spec fn chunks_for(bytes: int, chunk: int) -> int {
    if bytes % chunk == 0 {
        bytes / chunk
    } else {
        bytes / chunk + 1
    }
}

/// `round_up` yields a multiple of the alignment, less than one alignment
/// above its argument.
pub proof fn lemma_round_up(x: int, alignment: int)
    requires
        alignment > 0,
    ensures
        round_up(x, alignment) % alignment == 0,
        x <= round_up(x, alignment) < x + alignment,
        x % alignment == 0 ==> round_up(x, alignment) == x,
{
    lemma_fundamental_div_mod(x, alignment);
    lemma_mod_bound(x, alignment);
    if x % alignment != 0 {
        let q = x / alignment;
        assert(round_up(x, alignment) == (q + 1) * alignment) by (nonlinear_arith)
            requires
                x == alignment * q + x % alignment,
                round_up(x, alignment) == x + alignment - x % alignment,
        ;
        lemma_mod_multiples_basic(q + 1, alignment);
    }
}

/// `chunks_for` is the least number of chunks that cover the bytes.
pub proof fn lemma_chunks_for(bytes: int, chunk: int)
    requires
        bytes >= 0,
        chunk > 0,
    ensures
        chunks_for(bytes, chunk) >= 0,
        bytes > 0 ==> chunks_for(bytes, chunk) >= 1,
        bytes == 0 ==> chunks_for(bytes, chunk) == 0,
        bytes <= chunks_for(bytes, chunk) * chunk,
        (chunks_for(bytes, chunk) - 1) * chunk < bytes || bytes == 0,
        chunks_for(bytes, chunk) <= bytes,
{
    lemma_fundamental_div_mod(bytes, chunk);
    lemma_mod_bound(bytes, chunk);
    let q = bytes / chunk;
    let r = bytes % chunk;
    assert(q >= 0 && q <= bytes && (r == 0 || q + 1 <= bytes) && (bytes > 0 && r == 0 ==> q >= 1)
        && (bytes == 0 ==> q == 0 && r == 0)) by (nonlinear_arith)
        requires
            bytes == chunk * q + r,
            0 <= r < chunk,
            bytes >= 0,
            chunk > 0,
    ;
    assert(bytes <= chunks_for(bytes, chunk) * chunk && ((chunks_for(bytes, chunk) - 1) * chunk
        < bytes || bytes == 0)) by (nonlinear_arith)
        requires
            bytes == chunk * q + r,
            0 <= r < chunk,
            chunk > 0,
            chunks_for(bytes, chunk) == if r == 0 {
                q
            } else {
                q + 1
            },
    ;
}

/// More bytes never take fewer chunks.
pub proof fn lemma_chunks_for_monotone(less: int, more: int, chunk: int)
    requires
        0 <= less <= more,
        chunk > 0,
    ensures
        chunks_for(less, chunk) <= chunks_for(more, chunk),
{
    lemma_chunks_for(less, chunk);
    lemma_chunks_for(more, chunk);
    let a = chunks_for(less, chunk);
    let b = chunks_for(more, chunk);
    assert(a <= b) by (nonlinear_arith)
        requires
            less <= more,
            more <= b * chunk,
            (a - 1) * chunk < less || less == 0,
            less == 0 ==> a == 0,
            b >= 0,
            chunk > 0,
    ;
}

/// A multiple of `b` is a multiple of every divisor of `b`.
pub proof fn lemma_multiple_of_multiple(x: int, a: int, b: int)
    requires
        a > 0,
        b > 0,
        x % b == 0,
        b % a == 0,
    ensures
        x % a == 0,
{
    lemma_fundamental_div_mod(x, b);
    lemma_fundamental_div_mod(b, a);
    let q = x / b;
    let k = b / a;
    assert(x == (k * q) * a) by (nonlinear_arith)
        requires
            x == b * q,
            b == a * k,
    ;
    lemma_mod_multiples_basic(k * q, a);
}

/// Between a power of two and its double there is no power of two.
pub proof fn lemma_pow2_gap(a: int, b: int)
    requires
        is_pow2(a),
        is_pow2(b),
        a < b,
    ensures
        2 * a <= b,
    decreases a,
{
    reveal(is_pow2);
    if a > 1 {
        lemma_pow2_gap(a / 2, b / 2);
    }
}

/// Of two powers of two the smaller divides the larger.
pub proof fn lemma_pow2_divides(a: int, b: int)
    requires
        is_pow2(a),
        is_pow2(b),
        a <= b,
    ensures
        b % a == 0,
    decreases b,
{
    reveal(is_pow2);
    if a == b {
        lemma_mod_self_0(a);
    } else {
        lemma_pow2_gap(a, b);
        lemma_pow2_divides(a, b / 2);
        assert(b == 2 * (b / 2));
        lemma_mod_multiples_basic(2, b / 2);
        lemma_multiple_of_multiple(b, a, b / 2);
    }
}

/// A power of two is positive.
pub proof fn lemma_pow2_positive(a: int)
    requires
        is_pow2(a),
    ensures
        a > 0,
{
    reveal(is_pow2);
}

} // verus!
