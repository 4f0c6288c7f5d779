//! Sixty-four-bit occupancy bitmaps, read as sets of bit positions.

use vstd::prelude::*;
use vstd::std_specs::bits::*;

verus! {

/// Whether bit `i` of `bitmap` is set, counting from the least significant bit.
pub open spec fn bit(bitmap: u64, i: int) -> bool {
    0 <= i < 64 && (bitmap >> (i as u64)) & 1 == 1
}

/// The positions of the bits that are set in `bitmap`.
pub open spec fn bits_of(bitmap: u64) -> Set<int> {
    Set::new(|i: int| bit(bitmap, i))
}

/// The integers `lo <= i < hi`.
pub open spec fn span(lo: int, hi: int) -> Set<int> {
    Set::new(|i: int| lo <= i < hi)
}

/// One more than the greatest member of `used` below `limit`, or 0 where
/// there is none.
pub open spec fn top_below(used: Set<int>, limit: int) -> int
    decreases limit,
{
    if limit <= 0 {
        0
    } else if used.contains(limit - 1) {
        limit
    } else {
        top_below(used, limit - 1)
    }
}

/// `top_below` is the only height that bounds `used` from above and sits
/// right on top of a member.
pub proof fn lemma_top_below(used: Set<int>, limit: int)
    requires
        limit >= 0,
    ensures
        0 <= top_below(used, limit) <= limit,
        forall|i: int| used.contains(i) && 0 <= i < limit ==> i < top_below(used, limit),
        top_below(used, limit) > 0 ==> used.contains(top_below(used, limit) - 1),
    decreases limit,
{
    if limit > 0 && !used.contains(limit - 1) {
        lemma_top_below(used, limit - 1);
    }
}

/// A height with the two properties of `top_below` is `top_below`.
pub proof fn lemma_top_below_unique(used: Set<int>, limit: int, h: int)
    requires
        0 <= h <= limit,
        forall|i: int| used.contains(i) && 0 <= i < limit ==> i < h,
        h > 0 ==> used.contains(h - 1),
    ensures
        top_below(used, limit) == h,
{
    lemma_top_below(used, limit);
}

/// The bitmap whose set bits are exactly the positions `start <= i < end`.
pub fn range_mask(start: usize, end: usize) -> (mask: u64)
    requires
        start <= end <= 64,
    ensures
        bits_of(mask) == span(start as int, end as int),
{
    let mask: u64 = if start == end {
        0
    } else {
        let width: u64 = (end - start) as u64;
        let low: u64 = start as u64;
        (u64::MAX >> (64 - width)) << low
    };
    proof {
        let s: u64 = start as u64;
        let e: u64 = end as u64;
        assert forall|i: int| bit(mask, i) == (start <= i < end) by {
            if 0 <= i < 64 {
                let k: u64 = i as u64;
                if start == end {
                    assert((0u64 >> k) & 1 == 0) by (bit_vector);
                } else {
                    let w: u64 = (64 - (e - s)) as u64;
                    assert((((0xffff_ffff_ffff_ffffu64 >> w) << s) >> k) & 1 == 1 <==> s <= k < e)
                        by (bit_vector)
                        requires
                            s < e <= 64,
                            w + e == 64 + s,
                            k < 64,
                    ;
                }
            }
        }
        assert(bits_of(mask) =~= span(start as int, end as int));
    }
    mask
}

/// The empty bitmap has no bit set.
pub proof fn lemma_bits_of_zero()
    ensures
        bits_of(0) == Set::<int>::empty(),
{
    assert forall|i: int| !bit(0u64, i) by {
        if 0 <= i < 64 {
            let k: u64 = i as u64;
            assert((0u64 >> k) & 1 == 0) by (bit_vector);
        }
    }
    assert(bits_of(0) =~= Set::<int>::empty());
}

/// Or-ing two bitmaps unites their bits.
pub proof fn lemma_bits_of_or(a: u64, b: u64)
    ensures
        bits_of(a | b) == bits_of(a).union(bits_of(b)),
{
    assert forall|i: int| bit(a | b, i) == (bit(a, i) || bit(b, i)) by {
        if 0 <= i < 64 {
            let k: u64 = i as u64;
            assert((((a | b) >> k) & 1 == 1) <==> ((a >> k) & 1 == 1 || (b >> k) & 1 == 1))
                by (bit_vector);
        }
    }
    assert(bits_of(a | b) =~= bits_of(a).union(bits_of(b)));
}

/// And-ing a bitmap with the complement of another removes the other's bits.
pub proof fn lemma_bits_of_and_not(a: u64, b: u64)
    ensures
        bits_of(a & !b) == bits_of(a).difference(bits_of(b)),
{
    assert forall|i: int| bit(a & !b, i) == (bit(a, i) && !bit(b, i)) by {
        if 0 <= i < 64 {
            let k: u64 = i as u64;
            assert((((a & !b) >> k) & 1 == 1) <==> ((a >> k) & 1 == 1 && !((b >> k) & 1 == 1)))
                by (bit_vector);
        }
    }
    assert(bits_of(a & !b) =~= bits_of(a).difference(bits_of(b)));
}

/// Two bitmaps have no common bit exactly when their conjunction is zero.
pub proof fn lemma_bits_of_disjoint(a: u64, b: u64)
    ensures
        (a & b == 0) <==> bits_of(a).disjoint(bits_of(b)),
{
    if a & b == 0 {
        assert forall|i: int| !(bit(a, i) && bit(b, i)) by {
            if 0 <= i < 64 {
                let k: u64 = i as u64;
                assert(!((a >> k) & 1 == 1 && (b >> k) & 1 == 1)) by (bit_vector)
                    requires
                        a & b == 0,
                ;
            }
        }
        assert(bits_of(a).disjoint(bits_of(b)));
    } else {
        let c: u64 = a & b;
        axiom_u64_trailing_zeros(c);
        let t: u64 = u64_trailing_zeros(c) as u64;
        assert((a >> t) & 1 == 1 && (b >> t) & 1 == 1) by (bit_vector)
            requires
                c == a & b,
                (c >> t) & 1 == 1,
        ;
        assert(bit(a, t as int) && bit(b, t as int));
        assert(bits_of(a).contains(t as int) && bits_of(b).contains(t as int));
    }
}

/// Every bit of `b` is set in `a` exactly when `a | !b` is all ones.
pub proof fn lemma_bits_of_subset(a: u64, b: u64)
    ensures
        (a | !b == !0u64) <==> bits_of(b).subset_of(bits_of(a)),
{
    if a | !b == !0u64 {
        assert forall|i: int| bit(b, i) implies bit(a, i) by {
            let k: u64 = i as u64;
            assert((b >> k) & 1 == 1 ==> (a >> k) & 1 == 1) by (bit_vector)
                requires
                    a | !b == !0u64,
            ;
        }
        assert(bits_of(b).subset_of(bits_of(a)));
    } else {
        let c: u64 = b & !a;
        assert(c != 0) by (bit_vector)
            requires
                c == b & !a,
                a | !b != !0u64,
        ;
        axiom_u64_trailing_zeros(c);
        let t: u64 = u64_trailing_zeros(c) as u64;
        assert((b >> t) & 1 == 1 && !((a >> t) & 1 == 1)) by (bit_vector)
            requires
                c == b & !a,
                (c >> t) & 1 == 1,
        ;
        assert(bits_of(b).contains(t as int) && !bits_of(a).contains(t as int));
    }
}

/// Sixty-four minus the number of leading zeros is the height of a bitmap:
/// no bit is set at or above it, and the bit just below it is set.
pub proof fn lemma_bits_of_height(a: u64)
    ensures
        64 - u64_leading_zeros(a) == top_below(bits_of(a), 64),
{
    axiom_u64_leading_zeros(a);
    let z: int = u64_leading_zeros(a);
    let h: int = 64 - z;
    assert forall|i: int| bits_of(a).contains(i) && 0 <= i < 64 implies i < h by {
        let k: u64 = i as u64;
        if h <= i {
            assert((a >> k) & 1 == 0);
        }
    }
    if h > 0 {
        let k: u64 = (63 - z) as u64;
        assert((a >> k) & 1 != 0);
        assert((a >> k) & 1 == 1) by (bit_vector)
            requires
                (a >> k) & 1 != 0,
        ;
        assert(bit(a, h - 1));
    }
    lemma_top_below_unique(bits_of(a), 64, h);
}

} // verus!
