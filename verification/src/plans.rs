//! What an allocation comes to where the memory source is not asked: the
//! cases in which the plan of the allocator is known in closed form.

use vstd::prelude::*;
use vstd::arithmetic::power2::is_pow2;
use crate::arith::{
    lemma_chunks_for,
    lemma_multiple_of_multiple,
    lemma_pow2_divides,
    lemma_pow2_positive,
    lemma_round_up,
};
use crate::bitmapped_stack::{StackView, lemma_aligned_top, lemma_allocated};
use crate::bits::span;
use crate::chain_steps::{lemma_empty_stack, lemma_held_inside, lemma_step_allocated};
use crate::chains::{Bucket, BucketsView, Outcome, Row};
use crate::memory_source::valid_block;
use crate::sized_allocator::first_fit;

verus! {

/// A chain whose head has room serves from its head.
pub proof fn lemma_head_serves(row: Row, size: int, align: int)
    requires
        row.len() >= 1,
        row.stacks[0].can_alloc(size, align),
    ensures
        row.can_alloc(size, align),
        first_fit(row.stacks, size, align) == 0,
        row.alloc_addr(size, align) == row.stacks[0].alloc_addr(align),
        row.allocated(size, align) == row.with_stack(0, row.stacks[0].allocated(size, align)),
{
}

/// A chain without nodes serves nothing.
pub proof fn lemma_no_node_serves(row: Row, size: int, align: int)
    requires
        row.len() == 0,
    ensures
        !row.can_alloc(size, align),
{
}

/// A stack serves a request at its height, where the address of the chunk
/// at its height is aligned and the chunks of the request fit above it.
pub proof fn lemma_serves_at_height(v: StackView, size: int, align: int)
    requires
        v.wf(),
        size > 0,
        is_pow2(align),
        v.addr_of(v.height) % align == 0,
        v.height + v.chunks_for(size) <= 64,
    ensures
        v.can_alloc(size, align),
        v.alloc_start(align) == v.height,
        v.alloc_addr(align) == v.base + v.height * v.chunk,
        v.allocated(size, align).wf(),
        v.allocated(size, align).height == v.height + v.chunks_for(size),
        v.allocated(size, align).used == v.used.union(
            span(v.height, v.height + v.chunks_for(size)),
        ),
{
    lemma_aligned_top(v, align);
    lemma_round_up(v.addr_of(v.height), align);
    lemma_chunks_for(size, v.chunk);
    vstd::arithmetic::div_mod::lemma_div_multiples_vanish(v.height, v.chunk);
    assert(v.addr_of(v.height) - v.base == v.chunk * v.height) by (nonlinear_arith)
        requires
            v.addr_of(v.height) == v.base + v.height * v.chunk,
    ;
    assert(v.alloc_start(align) == v.height);
    lemma_allocated(v, size, align);
}

/// What adding a node to a chain comes to where the parent chain and the
/// metadata chain have room as they stand: the parent chain hands out the
/// stack, the metadata chain the metadata, and the node with its empty
/// stack goes to the head of the chain.
pub proof fn lemma_plan_extend_direct(v: BucketsView, k: Bucket)
    requires
        k.depth() >= 2,
        v.row(k.parent().unwrap()).can_alloc(k.stack_bytes(), k.chunk()),
        v.metadata.can_alloc(64, 64),
    ensures
        v.plan_extend(k) == Some(
            Outcome {
                ok: true,
                addr: 0,
                after: v.with_row(
                    k.parent().unwrap(),
                    v.row(k.parent().unwrap()).allocated(k.stack_bytes(), k.chunk()),
                ).with_row(Bucket::Metadata, v.metadata.allocated(64, 64)).with_row(
                    k,
                    v.row(k).pushed(
                        StackView::empty(
                            v.row(k.parent().unwrap()).alloc_addr(k.stack_bytes(), k.chunk()),
                            k.chunk(),
                        ),
                        v.metadata.alloc_addr(64, 64),
                    ),
                ),
            },
        ),
{
    let p = k.parent().unwrap();
    let s1 = v.with_row(p, v.row(p).allocated(k.stack_bytes(), k.chunk()));
    assert(s1.metadata == v.metadata);
    assert(s1.row(Bucket::Metadata) == v.metadata);
    let s2 = s1.with_row(Bucket::Metadata, s1.metadata.allocated(64, 64));
    assert(s2.row(k) == v.row(k));
    assert(v.plan_allocate(p, k.stack_bytes(), k.chunk()) == Some(
        Outcome {
            ok: true,
            addr: v.row(p).alloc_addr(k.stack_bytes(), k.chunk()),
            after: s1,
        },
    ));
    assert(s1.plan_allocate(Bucket::Metadata, 64, 64) == Some(
        Outcome { ok: true, addr: s1.metadata.alloc_addr(64, 64), after: s2 },
    ));
}

/// What an allocation comes to where its chain has no room and gets a new
/// node without the memory source: the chain with the new node is asked.
pub proof fn lemma_plan_after_extend(v: BucketsView, k: Bucket, size: int, align: int, grown: Outcome)
    requires
        !v.row(k).can_alloc(size, align),
        v.plan_extend(k) == Some(grown),
        grown.ok,
    ensures
        v.plan_allocate(k, size, align) == Some(
            if grown.after.row(k).can_alloc(size, align) {
                Outcome {
                    ok: true,
                    addr: grown.after.row(k).alloc_addr(size, align),
                    after: grown.after.with_row(k, grown.after.row(k).allocated(size, align)),
                }
            } else {
                Outcome { ok: false, addr: 0, after: grown.after }
            },
        ),
{
}

/// Success is owed where no block is needed: a request that its chain has
/// no room for is served by a new node of the chain, where the parent chain
/// has room for the stack of the node and the metadata chain for its
/// metadata, the alignment is not above the chunk size and the size not
/// above the size of a stack. It is served at the start of the new stack.
pub proof fn lemma_plan_start_direct(v: BucketsView, k: Bucket, size: int, align: int)
    requires
        v.inv(),
        k.depth() >= 2,
        !v.row(k).can_alloc(size, align),
        v.row(k.parent().unwrap()).can_alloc(k.stack_bytes(), k.chunk()),
        v.metadata.can_alloc(64, 64),
        size > 0,
        is_pow2(align),
        align <= k.chunk(),
        size <= k.stack_bytes(),
    ensures
        v.plan_extend(k) is Some,
        v.plan_extend(k)->Some_0.ok,
        v.plan_allocate(k, size, align) is Some,
        v.plan_allocate(k, size, align)->Some_0.ok,
        v.plan_allocate(k, size, align)->Some_0.addr == v.row(k.parent().unwrap()).alloc_addr(
            k.stack_bytes(),
            k.chunk(),
        ),
        v.plan_allocate(k, size, align)->Some_0.after == v.plan_extend(k)->Some_0.after.with_row(
            k,
            v.plan_extend(k)->Some_0.after.row(k).allocated(size, align),
        ),
{
    let p = k.parent().unwrap();
    let chunk = k.chunk();
    let memory = v.row(p).alloc_addr(k.stack_bytes(), chunk);
    assert(is_pow2(chunk) && is_pow2(p.chunk())) by {
        reveal_with_fuel(is_pow2, 14);
    }
    lemma_plan_extend_direct(v, k);
    let grown = v.plan_extend(k)->Some_0;
    // the new stack lies in a stack of the parent chain, at an address
    // that is aligned to the chunk size
    lemma_step_allocated(v, p, k.stack_bytes(), chunk);
    let s1 = v.with_row(p, v.row(p).allocated(k.stack_bytes(), chunk));
    assert(s1.row(p).wf(p.chunk()));
    lemma_held_inside(s1.row(p), p.chunk(), memory, k.stack_bytes());
    let j = s1.row(p).owner(memory);
    assert(s1.row(p).stacks[j].wf());
    assert(StackView::valid_geometry(memory, chunk));
    let head = StackView::empty(memory, chunk);
    lemma_empty_stack(memory, chunk);
    lemma_pow2_positive(align);
    lemma_pow2_divides(align, chunk);
    lemma_multiple_of_multiple(memory, align, chunk);
    lemma_chunks_for(size, chunk);
    assert(head.chunks_for(size) <= 64) by (nonlinear_arith)
        requires
            (head.chunks_for(size) - 1) * chunk < size,
            size <= 64 * chunk,
            chunk > 0,
    ;
    lemma_serves_at_height(head, size, align);
    assert(grown.after.row(k).stacks[0] == head);
    lemma_head_serves(grown.after.row(k), size, align);
    lemma_plan_after_extend(v, k, size, align, grown);
}

/// An address at an aligned offset into a block is aligned, where the
/// alignment divides 4096.
pub proof fn lemma_offset_aligned(block: int, offset: int, align: int)
    requires
        block % 4096 == 0,
        align > 0,
        4096int % align == 0,
        offset % align == 0,
    ensures
        (block + offset) % align == 0,
{
    lemma_multiple_of_multiple(block, align, 4096);
    vstd::arithmetic::div_mod::lemma_mod_adds(block, offset, align);
}

/// After the first block was taken up and 4096 bytes were handed out, nine
/// bytes are handed out without another block: the very large chain gives
/// the stack of the first node of the large chain, that gives the stack of
/// the first node of the small chain, and the small chain serves. The 4096
/// bytes lie in the second chunk of the block, the nine bytes at the start
/// of its third chunk, so that the two addresses are 4096 bytes apart.
pub proof fn lemma_small_after_very_large(b: int)
    requires
        valid_block(b),
    ensures
        BucketsView::empty().with_block(b) == BucketsView::empty().bootstrapped(b),
        BucketsView::empty().bootstrapped(b).serves(4096, 1),
        BucketsView::empty().bootstrapped(b).served_addr(4096, 1) == b + 4096,
        BucketsView::empty().bootstrapped(b).served(4096, 1).plan(9, 1) is Some,
        BucketsView::empty().bootstrapped(b).served(4096, 1).plan(9, 1)->Some_0.ok,
        BucketsView::empty().bootstrapped(b).served(4096, 1).plan(9, 1)->Some_0.addr == b + 8192,
{
    let s1 = BucketsView::empty().bootstrapped(b).served(4096, 1);
    lemma_no_node_serves(BucketsView::empty().metadata, 64, 64);
    reveal_with_fuel(is_pow2, 14);
    let e = BucketsView::empty();
    let sb = e.bootstrapped(b);
    // the heads after the block was taken up
    lemma_offset_aligned(b, 0, 64);
    lemma_offset_aligned(b, 64, 64);
    lemma_offset_aligned(b, 128, 64);
    lemma_offset_aligned(b, 192, 64);
    lemma_offset_aligned(b, 8192, 512);
    lemma_offset_aligned(b, 8192, 8);
    let n0 = StackView::empty(b, 4096);
    lemma_empty_stack(b, 4096);
    lemma_serves_at_height(n0, 4096, 64);
    let n1 = n0.allocated(4096, 64);
    let m0 = StackView::empty(b, 64);
    lemma_empty_stack(b, 64);
    lemma_serves_at_height(m0, 64, 64);
    let m1 = m0.allocated(64, 64);
    lemma_serves_at_height(m1, 64, 64);
    let m2 = m1.allocated(64, 64);
    assert(sb.very_large.stacks[0] == n1);
    assert(sb.metadata.stacks[0] == m2);
    // the first allocation
    lemma_serves_at_height(n1, 4096, 1);
    lemma_head_serves(sb.very_large, 4096, 1);
    let n2 = n1.allocated(4096, 1);
    assert(s1.very_large == sb.very_large.with_stack(0, n2));
    assert(s1.very_large.stacks[0] == n2);
    assert(s1.metadata == sb.metadata);
    assert(s1.large == Row::empty() && s1.small == Row::empty());
    // a node for the large chain
    lemma_serves_at_height(n2, 32768, 512);
    lemma_head_serves(s1.very_large, 32768, 512);
    lemma_serves_at_height(m2, 64, 64);
    lemma_head_serves(s1.metadata, 64, 64);
    lemma_plan_extend_direct(s1, Bucket::Large);
    let g = s1.plan_extend(Bucket::Large)->Some_0;
    let s4 = g.after;
    assert(s1.row(Bucket::VeryLarge).alloc_addr(32768, 512) == b + 8192);
    let l0 = StackView::empty(b + 8192, 512);
    lemma_empty_stack(b + 8192, 512);
    lemma_serves_at_height(l0, 512, 8);
    assert(s4.large.stacks[0] == l0);
    lemma_head_serves(s4.large, 512, 8);
    lemma_no_node_serves(s1.large, 512, 8);
    lemma_plan_after_extend(s1, Bucket::Large, 512, 8, g);
    let stack = s1.plan_allocate(Bucket::Large, 512, 8)->Some_0;
    assert(stack.ok && stack.addr == b + 8192);
    let s5 = stack.after;
    // a node for the small chain
    let m3 = m2.allocated(64, 64);
    assert(s5.metadata.stacks[0] == m3);
    lemma_serves_at_height(m3, 64, 64);
    lemma_head_serves(s5.metadata, 64, 64);
    lemma_no_node_serves(s1.small, 9, 1);
    assert(s1.plan_extend(Bucket::Small) is Some);
    let g2 = s1.plan_extend(Bucket::Small)->Some_0;
    assert(g2.ok);
    let k0 = StackView::empty(b + 8192, 8);
    lemma_empty_stack(b + 8192, 8);
    lemma_serves_at_height(k0, 9, 1);
    assert(g2.after.small.stacks[0] == k0);
    lemma_head_serves(g2.after.small, 9, 1);
    lemma_plan_after_extend(s1, Bucket::Small, 9, 1, g2);
}

} // verus!
