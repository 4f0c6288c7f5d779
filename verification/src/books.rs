//! Nothing is lost: which chunks are held outside the chains after each
//! step of the allocator.

use vstd::prelude::*;
use vstd::arithmetic::power2::is_pow2;
use crate::bitmapped_stack::{
    StackView,
    overlap,
    lemma_allocated,
    lemma_chunks_and_bytes,
    lemma_deallocated,
    lemma_grown,
    lemma_holds,
    lemma_shrunk,
};
use crate::chain_steps::{
    lemma_held_inside,
    lemma_metadata_heads,
    lemma_pushed_nodes,
    lemma_pushed_row,
    lemma_removed_nodes,
    lemma_row_all_wf,
    lemma_very_large_head,
    lemma_with_row,
    metadata_head,
    metadata_head_shared,
    very_large_head,
};
use crate::chains::{Bucket, BucketsView, Row, chunks_in, chunks_in_of};
use crate::sized_allocator::{
    first_fit,
    first_owner,
    held,
    lemma_first_fit,
    lemma_first_owner,
    lemma_owner_same_place,
    lemma_owner_unique,
};

verus! {

/// A chunk of a stack is handed out where its address is that of a chunk of
/// the stack and the chunk is in use; its one byte then lies in every
/// allocation of the stack that the chunk belongs to.
pub proof fn lemma_chunk_held(v: StackView, a: int)
    requires
        v.wf(),
        v.owns(a),
        (a - v.base) % v.chunk == 0,
    ensures
        v.chunk > 0,
        0 <= v.chunk_of(a) < 64,
        v.addr_of(v.chunk_of(a)) == a,
        v.chunks_at(a, 1) == crate::bits::span(v.chunk_of(a), v.chunk_of(a) + 1),
        v.holds(a, 1) <==> v.used.contains(v.chunk_of(a)),
{
    crate::arith::lemma_pow2_positive(v.chunk);
    crate::arith::lemma_chunks_for(1, v.chunk);
    vstd::arithmetic::div_mod::lemma_fundamental_div_mod(a - v.base, v.chunk);
    let c = v.chunk_of(a);
    assert(0 <= c < 64) by (nonlinear_arith)
        requires
            a - v.base == v.chunk * c,
            0 <= a - v.base < 64 * v.chunk,
            v.chunk > 0,
    ;
    assert(v.chunks_for(1) == 1) by {
        if v.chunk == 1 {
        } else {
            vstd::arithmetic::div_mod::lemma_small_mod(1, v.chunk as nat);
            vstd::arithmetic::div_mod::lemma_basic_div(1, v.chunk);
        }
    }
    assert(v.chunks_at(a, 1) =~= crate::bits::span(c, c + 1));
    if v.used.contains(c) {
        assert(v.chunks_at(a, 1).subset_of(v.used));
    } else {
        assert(v.chunks_at(a, 1).contains(c));
    }
}

/// A chunk lies in an allocation of its stack exactly when its first byte
/// does.
pub proof fn lemma_chunk_in(v: StackView, a: int, p: int, s: int)
    requires
        v.wf(),
        v.owns(a),
        (a - v.base) % v.chunk == 0,
        v.holds(p, s),
    ensures
        v.chunks_at(p, s).contains(v.chunk_of(a)) <==> overlap(a, 1, p, s),
{
    lemma_chunk_held(v, a);
    lemma_chunks_and_bytes(v, p, s, a, 1);
    let c = v.chunk_of(a);
    if v.chunks_at(p, s).contains(c) {
        assert(!v.chunks_at(p, s).disjoint(v.chunks_at(a, 1)));
    } else {
        assert(v.chunks_at(p, s).disjoint(v.chunks_at(a, 1)));
    }
}

/// Where a chain is replaced by one with the same nodes at the same places,
/// a chunk that is held outside the chains afterwards was so before if the
/// chain handed it out before.
pub proof fn lemma_replaced_only(v: BucketsView, k: Bucket, row: Row, l: Bucket, a: int)
    requires
        v.row(k).same_places(row),
        v.with_row(k, row).free_held(l, a, 1),
        l == k ==> v.row(k).holds(a, 1),
    ensures
        v.free_held(l, a, 1),
{
    let w = v.with_row(k, row);
    lemma_with_row(v, k, row);
    assert forall|m: Bucket, j: int|
        #![trigger v.row(m).stacks[j]]
        v.has(m, j) && m.parent() == Some(l) implies !overlap(
        a,
        1,
        v.base(m, j),
        m.stack_bytes(),
    ) by {
        assert(v.row(m).stacks[j].same_place(w.row(m).stacks[j]));
        assert(w.has(m, j));
        assert(!overlap(a, 1, w.base(m, j), m.stack_bytes()));
    }
    if l == Bucket::Metadata {
        assert forall|m: Bucket, j: int| #![trigger v.row(m).headers[j]] v.has(m, j) implies !overlap(
            a,
            1,
            v.header(m, j),
            64,
        ) by {
            assert(v.row(m).stacks[j].same_place(w.row(m).stacks[j]));
            assert(w.has(m, j));
            assert(!overlap(a, 1, w.header(m, j), 64));
        }
    }
}

/// Serving a request from a chain lets nothing out but what it hands out.
pub proof fn lemma_allocated_only(v: BucketsView, k: Bucket, size: int, align: int)
    requires
        v.inv(),
        size > 0,
        is_pow2(align),
        v.row(k).can_alloc(size, align),
    ensures
        v.only_from_or(
            v.with_row(k, v.row(k).allocated(size, align)),
            k,
            v.row(k).alloc_addr(size, align),
            size,
        ),
{
    let r = v.row(k);
    let r2 = r.allocated(size, align);
    let w = v.with_row(k, r2);
    let p = r.alloc_addr(size, align);
    let j = first_fit(r.stacks, size, align);
    lemma_first_fit(r.stacks, size, align);
    assert(r.wf(k.chunk()));
    assert(r.stacks[j].wf());
    lemma_allocated(r.stacks[j], size, align);
    lemma_with_row(v, k, r2);
    assert(r.same_places(r2));
    assert forall|l: Bucket, a: int| #[trigger] w.free_held(l, a, 1) implies v.free_held(l, a, 1)
        || (l == k && overlap(a, 1, p, size)) by {
        if l == k {
            lemma_first_owner(r2.stacks, a);
            lemma_owner_same_place(r.stacks, r2.stacks, a);
            let i = first_owner(r2.stacks, a);
            assert(r.stacks[i].same_place(r2.stacks[i]));
            assert(r.stacks[i].wf());
            if i == j && !r.stacks[i].holds(a, 1) {
                lemma_chunk_held(r.stacks[j], a);
                lemma_chunk_held(r2.stacks[j], a);
                lemma_chunk_in(r2.stacks[j], a, p, size);
            }
            if r.holds(a, 1) {
                lemma_replaced_only(v, k, r2, l, a);
            }
        } else {
            lemma_replaced_only(v, k, r2, l, a);
        }
    }
}

/// Where a node was put in front of a chain, a chunk that is held outside
/// the chains afterwards was so before, and has no byte in common with the
/// stack or the metadata of the new node, unless the new node itself hands
/// it out.
pub proof fn lemma_pushed_only(
    v: BucketsView,
    k: Bucket,
    head: StackView,
    header: int,
    l: Bucket,
    a: int,
)
    requires
        v.row(k).wf(k.chunk()),
        head.wf(),
        head.chunk == k.chunk(),
        forall|i: int| 0 <= i < v.row(k).stacks.len() ==> head.apart(#[trigger] v.row(k).stacks[i]),
        v.with_row(k, v.row(k).pushed(head, header)).free_held(l, a, 1),
        l == k ==> !head.holds(a, 1),
    ensures
        v.free_held(l, a, 1),
        !(k.parent() == Some(l) && overlap(a, 1, head.base, k.stack_bytes())),
        !(l == Bucket::Metadata && overlap(a, 1, header, 64)),
{
    let r = v.row(k);
    let r2 = r.pushed(head, header);
    let w = v.with_row(k, r2);
    lemma_pushed_nodes(v, k, head, header);
    lemma_pushed_row(r, k.chunk(), head, header);
    assert(w.has(k, 0));
    assert(w.row(k).stacks[0] == head);
    assert(w.row(k).headers[0] == header);
    if l == k {
        assert(held(r2.stacks, a, 1));
    }
    assert(v.row(l).holds(a, 1));
    assert forall|m: Bucket, j: int|
        #![trigger v.row(m).stacks[j]]
        v.has(m, j) && m.parent() == Some(l) implies !overlap(
        a,
        1,
        v.base(m, j),
        m.stack_bytes(),
    ) by {
        let j2 = if m == k {
            j + 1
        } else {
            j
        };
        assert(w.row(m).stacks[j2] == v.row(m).stacks[j]);
        assert(w.has(m, j2));
        assert(!overlap(a, 1, w.base(m, j2), m.stack_bytes()));
    }
    if l == Bucket::Metadata {
        assert forall|m: Bucket, j: int| #![trigger v.row(m).headers[j]] v.has(m, j) implies !overlap(
            a,
            1,
            v.header(m, j),
            64,
        ) by {
            let j2 = if m == k {
                j + 1
            } else {
                j
            };
            assert(w.row(m).headers[j2] == v.row(m).headers[j]);
            assert(w.has(m, j2));
            assert(!overlap(a, 1, w.header(m, j2), 64));
        }
        assert(!overlap(a, 1, w.header(k, 0), 64));
    }
    if k.parent() == Some(l) {
        assert(!overlap(a, 1, w.base(k, 0), k.stack_bytes()));
    }
}

/// A chunk that a chain hands out after one of its nodes was cut out was
/// handed out before.
pub proof fn lemma_removed_held(row: Row, chunk: int, j: int, a: int)
    requires
        row.wf(chunk),
        0 <= j < row.len(),
        row.removed(j).holds(a, 1),
    ensures
        row.holds(a, 1),
        row.owner(a) != j,
{
    let r2 = row.removed(j);
    lemma_first_owner(r2.stacks, a);
    let i = first_owner(r2.stacks, a);
    let i0 = if i < j {
        i
    } else {
        i + 1
    };
    assert(r2.stacks[i] == row.stacks[i0]);
    lemma_row_all_wf(row, chunk);
    lemma_owner_unique(row.stacks, chunk, i0, a);
}

/// Where an allocation was taken back from a chain, a chunk that is held
/// outside the chains afterwards was so before and is no part of the
/// allocation, or it is a part of the stack or of the metadata of a node
/// that was cut out of the chain.
pub proof fn lemma_deallocated_only(
    v: BucketsView,
    k: Bucket,
    ptr: int,
    size: int,
    l: Bucket,
    a: int,
)
    requires
        v.inv(),
        v.free_held(k, ptr, size),
        v.with_row(k, v.row(k).deallocated(ptr, size)).free_held(l, a, 1),
    ensures
        (v.free_held(l, a, 1) && !(l == k && overlap(a, 1, ptr, size))) || (v.row(k).collapses(
            ptr,
            size,
        ) && ((k.parent() == Some(l) && overlap(
            a,
            1,
            v.row(k).stacks[v.row(k).owner(ptr)].base,
            k.stack_bytes(),
        )) || (l == Bucket::Metadata && overlap(
            a,
            1,
            v.row(k).headers[v.row(k).owner(ptr)],
            64,
        )))),
{
    let r = v.row(k);
    let r2 = r.deallocated(ptr, size);
    let w = v.with_row(k, r2);
    let j = r.owner(ptr);
    assert(r.wf(k.chunk()));
    lemma_held_inside(r, k.chunk(), ptr, size);
    lemma_with_row(v, k, r2);
    lemma_row_all_wf(r, k.chunk());
    let stack = r.stacks[j];
    assert(stack.wf());
    lemma_deallocated(stack, ptr, size);
    // the chain handed the chunk out before, and it is no part of the allocation
    if l == k {
        if r.collapses(ptr, size) {
            lemma_removed_held(r, k.chunk(), j, a);
            lemma_held_inside(r, k.chunk(), a, 1);
            let i = r.owner(a);
            if overlap(a, 1, ptr, size) {
                assert(stack.owns(a));
                lemma_owner_unique(r.stacks, k.chunk(), j, a);
            }
        } else {
            assert(r.same_places(r2));
            lemma_first_owner(r2.stacks, a);
            lemma_owner_same_place(r.stacks, r2.stacks, a);
            let i = first_owner(r2.stacks, a);
            assert(r.stacks[i].same_place(r2.stacks[i]));
            assert(r.stacks[i].wf());
            if i == j {
                lemma_chunk_held(stack, a);
                lemma_chunk_held(r2.stacks[j], a);
                lemma_chunk_in(stack, a, ptr, size);
            }
            if overlap(a, 1, ptr, size) {
                assert(stack.owns(a));
                lemma_owner_unique(r.stacks, k.chunk(), j, a);
            }
        }
    }
    assert(v.row(l).holds(a, 1));
    assert(!(l == k && overlap(a, 1, ptr, size)));
    if r.collapses(ptr, size) {
        lemma_removed_nodes(v, k, j);
        let gone_stack = k.parent() == Some(l) && overlap(a, 1, stack.base, k.stack_bytes());
        let gone_header = l == Bucket::Metadata && overlap(a, 1, r.headers[j], 64);
        if !gone_stack && !gone_header {
            assert forall|m: Bucket, i: int|
                #![trigger v.row(m).stacks[i]]
                v.has(m, i) && m.parent() == Some(l) implies !overlap(
                a,
                1,
                v.base(m, i),
                m.stack_bytes(),
            ) by {
                if !(m == k && i == j) {
                    let i2 = if m == k && i > j {
                        i - 1
                    } else {
                        i
                    };
                    assert(w.row(m).stacks[i2] == v.row(m).stacks[i]);
                    assert(w.has(m, i2));
                    assert(!overlap(a, 1, w.base(m, i2), m.stack_bytes()));
                }
            }
            if l == Bucket::Metadata {
                assert forall|m: Bucket, i: int|
                    #![trigger v.row(m).headers[i]]
                    v.has(m, i) implies !overlap(a, 1, v.header(m, i), 64) by {
                    if !(m == k && i == j) {
                        let i2 = if m == k && i > j {
                            i - 1
                        } else {
                            i
                        };
                        assert(w.row(m).headers[i2] == v.row(m).headers[i]);
                        assert(w.has(m, i2));
                        assert(!overlap(a, 1, w.header(m, i2), 64));
                    }
                }
            }
        }
    } else {
        assert(r.same_places(r2));
        lemma_replaced_only(v, k, r2, l, a);
    }
}

/// Where an allocation shrank, a chunk that is held outside the chains
/// afterwards was so before, and is no part of what the allocation gave up.
pub proof fn lemma_shrunk_only(
    v: BucketsView,
    k: Bucket,
    ptr: int,
    old_size: int,
    new_size: int,
    l: Bucket,
    a: int,
)
    requires
        v.inv(),
        v.free_held(k, ptr, old_size),
        0 < new_size <= old_size,
        v.with_row(k, v.row(k).shrunk(ptr, old_size, new_size)).free_held(l, a, 1),
    ensures
        v.free_held(l, a, 1),
        l == k && overlap(a, 1, ptr, old_size) ==> overlap(a, 1, ptr, new_size),
{
    let r = v.row(k);
    let r2 = r.shrunk(ptr, old_size, new_size);
    let w = v.with_row(k, r2);
    let j = r.owner(ptr);
    assert(r.wf(k.chunk()));
    lemma_held_inside(r, k.chunk(), ptr, old_size);
    lemma_with_row(v, k, r2);
    lemma_row_all_wf(r, k.chunk());
    let stack = r.stacks[j];
    assert(stack.wf());
    lemma_shrunk(stack, ptr, old_size, new_size);
    assert(r.same_places(r2));
    if l == k {
        lemma_first_owner(r2.stacks, a);
        lemma_owner_same_place(r.stacks, r2.stacks, a);
        let i = first_owner(r2.stacks, a);
        assert(r.stacks[i].same_place(r2.stacks[i]));
        assert(r.stacks[i].wf());
        if i == j {
            lemma_chunk_held(stack, a);
            lemma_chunk_held(r2.stacks[j], a);
            lemma_chunk_in(stack, a, ptr, old_size);
            lemma_chunk_in(r2.stacks[j], a, ptr, new_size);
            let c = stack.chunk_of(a);
            if overlap(a, 1, ptr, old_size) && !overlap(a, 1, ptr, new_size) {
                assert(stack.tail_chunks(ptr, new_size, old_size).contains(c));
            }
        }
        if overlap(a, 1, ptr, old_size) {
            assert(stack.owns(a));
            lemma_owner_unique(r.stacks, k.chunk(), j, a);
        }
    }
    lemma_replaced_only(v, k, r2, l, a);
}

/// Where an allocation grew where it stands, a chunk that is held outside
/// the chains afterwards was so before, or it is a part of the grown
/// allocation.
pub proof fn lemma_grown_only(
    v: BucketsView,
    k: Bucket,
    ptr: int,
    old_size: int,
    new_size: int,
    l: Bucket,
    a: int,
)
    requires
        v.inv(),
        v.free_held(k, ptr, old_size),
        old_size <= new_size,
        v.row(k).can_grow(ptr, old_size, new_size),
        v.with_row(k, v.row(k).grown(ptr, old_size, new_size)).free_held(l, a, 1),
    ensures
        v.free_held(l, a, 1) || (l == k && overlap(a, 1, ptr, new_size)),
{
    let r = v.row(k);
    let r2 = r.grown(ptr, old_size, new_size);
    let w = v.with_row(k, r2);
    let j = r.owner(ptr);
    assert(r.wf(k.chunk()));
    lemma_held_inside(r, k.chunk(), ptr, old_size);
    lemma_with_row(v, k, r2);
    lemma_row_all_wf(r, k.chunk());
    let stack = r.stacks[j];
    assert(stack.wf());
    lemma_grown(stack, ptr, old_size, new_size);
    assert(r.same_places(r2));
    if l == k {
        lemma_first_owner(r2.stacks, a);
        lemma_owner_same_place(r.stacks, r2.stacks, a);
        let i = first_owner(r2.stacks, a);
        assert(r.stacks[i].same_place(r2.stacks[i]));
        assert(r.stacks[i].wf());
        if i == j && !r.stacks[i].holds(a, 1) {
            lemma_chunk_held(stack, a);
            lemma_chunk_held(r2.stacks[j], a);
            lemma_chunk_in(r2.stacks[j], a, ptr, new_size);
            let c = stack.chunk_of(a);
            assert(stack.tail_chunks(ptr, old_size, new_size).contains(c));
            assert(r2.stacks[j].chunks_at(ptr, new_size).contains(c));
        }
        if r.holds(a, 1) {
            lemma_replaced_only(v, k, r2, l, a);
        }
    } else {
        lemma_replaced_only(v, k, r2, l, a);
    }
}

/// An empty stack hands out nothing.
pub proof fn lemma_empty_holds_nothing(base: int, chunk: int, a: int)
    requires
        StackView::valid_geometry(base, chunk),
    ensures
        !StackView::empty(base, chunk).holds(a, 1),
{
    let e = StackView::empty(base, chunk);
    crate::chain_steps::lemma_empty_stack(base, chunk);
    if e.holds(a, 1) {
        lemma_holds(e, a, 1);
    }
}

/// Whether every chunk that is held outside the chains in `after` was so in
/// `v`, and is no part of the stack at `base` of a new node of chain `k`
/// nor of the node's metadata at `header`.
pub open spec fn only_from_but_node(
    v: BucketsView,
    after: BucketsView,
    k: Bucket,
    base: int,
    header: int,
) -> bool {
    forall|l: Bucket, a: int| #[trigger]
        after.free_held(l, a, 1) ==> v.free_held(l, a, 1) && !(k.parent() == Some(l) && overlap(
            a,
            1,
            base,
            k.stack_bytes(),
        )) && !(l == Bucket::Metadata && overlap(a, 1, header, 64))
}

/// Whether every chunk that is held outside the chains in `after` was so in
/// `v` and is no part of the `size` bytes at `ptr` of chain `k`, or, where
/// a node of chain `k` left the chain, is a part of the node's stack at
/// `base` or of its metadata at `header`.
pub open spec fn only_from_or_node(
    v: BucketsView,
    after: BucketsView,
    k: Bucket,
    ptr: int,
    size: int,
    left: bool,
    base: int,
    header: int,
) -> bool {
    forall|l: Bucket, a: int| #[trigger]
        after.free_held(l, a, 1) ==> (v.free_held(l, a, 1) && !(l == k && overlap(
            a,
            1,
            ptr,
            size,
        ))) || (left && ((k.parent() == Some(l) && overlap(a, 1, base, k.stack_bytes())) || (l
            == Bucket::Metadata && overlap(a, 1, header, 64))))
}

/// A new node with an empty stack lets nothing out, and takes in its stack
/// and its metadata.
pub proof fn lemma_step_pushed_only(v: BucketsView, k: Bucket, base: int, header: int)
    requires
        v.inv(),
        k != Bucket::Metadata,
        StackView::valid_geometry(base, k.chunk()),
        k.parent() matches Some(p) ==> v.free_held(p, base, k.stack_bytes()),
        k == Bucket::VeryLarge ==> forall|i: int|
            0 <= i < v.very_large.len() ==> StackView::empty(base, k.chunk()).apart(
                #[trigger] v.very_large.stacks[i],
            ),
    ensures
        only_from_but_node(
            v,
            v.with_row(k, v.row(k).pushed(StackView::empty(base, k.chunk()), header)),
            k,
            base,
            header,
        ),
{
    let r = v.row(k);
    let head = StackView::empty(base, k.chunk());
    let w = v.with_row(k, r.pushed(head, header));
    crate::chain_steps::lemma_empty_stack(base, k.chunk());
    assert(r.wf(k.chunk()));
    assert forall|i: int| 0 <= i < r.stacks.len() implies head.apart(#[trigger] r.stacks[i]) by {
        if k != Bucket::VeryLarge {
            assert(v.has(k, i));
            assert(!overlap(base, k.stack_bytes(), v.base(k, i), k.stack_bytes()));
        }
    }
    assert forall|l: Bucket, a: int| #[trigger] w.free_held(l, a, 1) implies v.free_held(l, a, 1)
        && !(k.parent() == Some(l) && overlap(a, 1, base, k.stack_bytes())) && !(l
        == Bucket::Metadata && overlap(a, 1, header, 64)) by {
        lemma_empty_holds_nothing(base, k.chunk(), a);
        lemma_pushed_only(v, k, head, header, l, a);
    }
}

/// A new node of the metadata chain lets nothing out, and takes in its
/// stack.
pub proof fn lemma_step_pushed_metadata_only(v: BucketsView, mem: int)
    requires
        v.inv(),
        StackView::valid_geometry(mem, 64),
        v.free_held(Bucket::VeryLarge, mem, 4096),
    ensures
        v.only_from_but(
            v.with_row(Bucket::Metadata, v.metadata.pushed(metadata_head(mem), mem)),
            Bucket::VeryLarge,
            mem,
            4096,
        ),
{
    let k = Bucket::Metadata;
    let r = v.row(k);
    let head = metadata_head(mem);
    let w = v.with_row(k, r.pushed(head, mem));
    lemma_metadata_heads(mem);
    assert(r.wf(k.chunk()));
    lemma_pushed_nodes(v, k, head, mem);
    assert forall|i: int| 0 <= i < r.stacks.len() implies head.apart(#[trigger] r.stacks[i]) by {
        assert(v.has(k, i));
        assert(!overlap(mem, 4096, v.base(k, i), k.stack_bytes()));
    }
    assert forall|l: Bucket, a: int| #[trigger] w.free_held(l, a, 1) implies v.free_held(l, a, 1)
        && !(l == Bucket::VeryLarge && overlap(a, 1, mem, 4096)) by {
        if l == k && head.holds(a, 1) {
            // the only chunk in use is the node's own metadata
            lemma_empty_holds_nothing(mem, 64, a);
            lemma_chunk_in_head(head, StackView::empty(mem, 64), 64, 64, a);
            assert(overlap(a, 1, mem, 64));
            assert(w.has(k, 0));
            assert(w.row(k).headers[0] == mem);
            assert(!overlap(a, 1, w.header(k, 0), 64));
            assert(false);
        }
        lemma_pushed_only(v, k, head, mem, l, a);
    }
}

/// A chunk that a stack hands out right after an allocation, and did not
/// before, is a part of that allocation.
pub proof fn lemma_chunk_in_head(after: StackView, before: StackView, size: int, align: int, a: int)
    requires
        before.wf(),
        size > 0,
        is_pow2(align),
        before.can_alloc(size, align),
        after == before.allocated(size, align),
        after.holds(a, 1),
    ensures
        before.holds(a, 1) || overlap(a, 1, before.alloc_addr(align), size),
{
    lemma_allocated(before, size, align);
    lemma_holds(after, a, 1);
    lemma_chunk_held(after, a);
    lemma_chunk_held(before, a);
    lemma_chunk_in(after, a, before.alloc_addr(align), size);
}

/// Taking up a block with a new metadata node in its first chunk lets
/// nothing out.
pub proof fn lemma_step_bootstrap_only(v: BucketsView, block: int)
    requires
        v.inv(),
        StackView::valid_geometry(block, 4096),
        forall|i: int|
            0 <= i < v.very_large.len() ==> StackView::empty(block, 4096).apart(
                #[trigger] v.very_large.stacks[i],
            ),
    ensures
        v.only_from(v.bootstrapped(block)),
{
    let vl = Bucket::VeryLarge;
    let md = Bucket::Metadata;
    let n = very_large_head(block);
    let m = metadata_head_shared(block);
    let hn = block + 64;
    let hm = block;
    let w1 = v.with_row(vl, v.very_large.pushed(n, hn));
    let w = w1.with_row(md, w1.metadata.pushed(m, hm));
    lemma_very_large_head(block);
    lemma_metadata_heads(block);
    assert(v.row(vl).wf(vl.chunk()));
    assert(v.row(md).wf(md.chunk()));
    assert(w1.metadata == v.metadata);
    assert(w1.row(md) == v.row(md));
    assert(w == v.bootstrapped(block));
    lemma_pushed_nodes(v, vl, n, hn);
    lemma_pushed_nodes(w1, md, m, hm);
    assert forall|i: int| 0 <= i < v.metadata.stacks.len() implies m.apart(
        #[trigger] v.metadata.stacks[i],
    ) by {
        assert(v.has(md, i));
        assert(v.row(md.parent().unwrap()).holds(v.base(md, i), 4096));
        crate::chain_steps::lemma_outside_block(v, block, v.base(md, i), 4096);
    }
    assert(w.has(md, 0) && w.has(vl, 0));
    assert(w.header(md, 0) == hm && w.header(vl, 0) == hn && w.base(md, 0) == block);
    assert forall|l: Bucket, a: int| #[trigger] w.free_held(l, a, 1) implies v.free_held(l, a, 1) by {
        if l == md && m.holds(a, 1) {
            lemma_empty_holds_nothing(block, 64, a);
            lemma_chunk_in_head(m, metadata_head(block), 64, 64, a);
            if metadata_head(block).holds(a, 1) {
                lemma_chunk_in_head(metadata_head(block), StackView::empty(block, 64), 64, 64, a);
            }
            assert(overlap(a, 1, block, 64) || overlap(a, 1, block + 64, 64));
            assert(w.row(md).headers[0] == hm);
            assert(w.row(vl).headers[0] == hn);
            assert(!overlap(a, 1, w.header(md, 0), 64));
            assert(!overlap(a, 1, w.header(vl, 0), 64));
            assert(false);
        }
        lemma_pushed_only(w1, md, m, hm, l, a);
        if l == vl && n.holds(a, 1) {
            lemma_empty_holds_nothing(block, 4096, a);
            lemma_chunk_in_head(n, StackView::empty(block, 4096), 4096, 64, a);
            assert(overlap(a, 1, block, 4096));
            assert(false);
        }
        lemma_pushed_only(v, vl, n, hn, l, a);
    }
}

/// The chunks of an allocation that is held outside the chains are held
/// outside the chains, and they are the only such chunks that have a byte
/// in common with the allocation.
pub proof fn lemma_chunks_in(v: BucketsView, k: Bucket, ptr: int, size: int, a: int)
    requires
        v.inv(),
        v.free_held(k, ptr, size),
    ensures
        chunks_in(k, ptr, size).contains(a) <==> v.free_held(k, a, 1) && overlap(a, 1, ptr, size),
{
    let r = v.row(k);
    assert(r.wf(k.chunk()));
    lemma_held_inside(r, k.chunk(), ptr, size);
    lemma_row_all_wf(r, k.chunk());
    let j = r.owner(ptr);
    let stack = r.stacks[j];
    assert(stack.wf());
    let c = k.chunk();
    if chunks_in(k, ptr, size).contains(a) {
        assert(stack.owns(a));
        lemma_owner_unique(r.stacks, c, j, a);
        assert((a - stack.base) % c == 0) by {
            vstd::arithmetic::div_mod::lemma_mod_adds(ptr - stack.base, a - ptr, c);
        }
        lemma_chunk_held(stack, a);
        lemma_chunk_in(stack, a, ptr, size);
        assert(stack.holds(a, 1));
        assert(v.row(k).holds(a, 1));
    }
    if v.free_held(k, a, 1) && overlap(a, 1, ptr, size) {
        assert(stack.owns(a));
        lemma_owner_unique(r.stacks, c, j, a);
        assert(r.holds(a, 1));
        assert(stack.holds(a, 1));
        assert((a - ptr) % c == 0) by {
            vstd::arithmetic::div_mod::lemma_sub_mod_noop(a - stack.base, ptr - stack.base, c);
            vstd::arithmetic::div_mod::lemma_small_mod(0, c as nat);
        }
    }
}

/// Before anything was asked of the allocator, no chunk is held outside the
/// chains.
pub proof fn lemma_nothing_out_at_start(k: Bucket)
    ensures
        BucketsView::empty().chunks_out(k) == Set::<int>::empty(),
{
    let v = BucketsView::empty();
    assert forall|a: int| !v.chunks_out(k).contains(a) by {
        assert(v.row(k).stacks.len() == 0);
    }
    assert(v.chunks_out(k) =~= Set::<int>::empty());
}

/// Once nothing of a chain is held outside the chains, every node of the
/// chain is empty, where the chain hands out no stack of another chain and
/// is not the metadata chain: every bitmap is zero, and every cached count
/// of free chunks is 64. This holds of the very small and of the small
/// chain at all times.
pub proof fn lemma_nothing_out(v: BucketsView, k: Bucket, i: int)
    requires
        v.inv(),
        k != Bucket::Metadata,
        forall|l: Bucket| l.parent() == Some(k) ==> (#[trigger] v.row(l)).len() == 0,
        v.chunks_out(k) == Set::<int>::empty(),
        v.has(k, i),
    ensures
        v.row(k).stacks[i].used == Set::<int>::empty(),
        v.row(k).stacks[i].height == 0,
        v.row(k).spaces[i] == 64,
{
    let r = v.row(k);
    assert(r.wf(k.chunk()));
    lemma_row_all_wf(r, k.chunk());
    let stack = r.stacks[i];
    assert(stack.wf());
    assert forall|c: int| !stack.used.contains(c) by {
        if stack.used.contains(c) {
            let a = stack.addr_of(c);
            crate::arith::lemma_pow2_positive(stack.chunk);
            assert(stack.owns(a) && (a - stack.base) % stack.chunk == 0) by {
                assert(0 <= c < 64);
                assert(0 <= c * stack.chunk < 64 * stack.chunk) by (nonlinear_arith)
                    requires
                        0 <= c < 64,
                        stack.chunk > 0,
                ;
                vstd::arithmetic::div_mod::lemma_mod_multiples_basic(c, stack.chunk);
            }
            lemma_chunk_held(stack, a);
            vstd::arithmetic::div_mod::lemma_div_multiples_vanish(c, stack.chunk);
            assert(a - stack.base == stack.chunk * c) by (nonlinear_arith)
                requires
                    a == stack.base + c * stack.chunk,
            ;
            assert(stack.chunk_of(a) == c);
            lemma_owner_unique(r.stacks, k.chunk(), i, a);
            assert forall|l: Bucket, j: int|
                #![trigger v.row(l).stacks[j]]
                v.has(l, j) && l.parent() == Some(k) implies !overlap(
                a,
                1,
                v.base(l, j),
                l.stack_bytes(),
            ) by {
                assert(v.row(l).len() == 0);
            }
            assert(v.free_held(k, a, 1));
            assert(v.chunks_out(k).contains(a));
        }
    }
    assert(stack.used =~= Set::<int>::empty());
    crate::bits::lemma_top_below(stack.used, 64);
}

/// Where all that was held outside the chains still is, and nothing else
/// is, the same chunks are held outside the chains.
pub proof fn lemma_same_out(v: BucketsView, w: BucketsView)
    requires
        v.kept_in(w),
        v.only_from(w),
    ensures
        w.same_out(v),
{
    assert forall|l: Bucket| #[trigger] w.chunks_out(l) == v.chunks_out(l) by {
        assert forall|a: int| w.chunks_out(l).contains(a) == v.chunks_out(l).contains(a) by {
            if v.free_held(l, a, 1) {
                assert(w.free_held(l, a, 1));
            }
            if w.free_held(l, a, 1) {
                assert(v.free_held(l, a, 1));
            }
        }
        assert(w.chunks_out(l) =~= v.chunks_out(l));
    }
}

/// After an allocation the chunks that are held outside the chains are
/// those that were, and those of the allocation.
pub proof fn lemma_gained(v: BucketsView, w: BucketsView, k: Bucket, ptr: int, size: int)
    requires
        w.inv(),
        v.kept_in(w),
        v.only_from_or(w, k, ptr, size),
        w.free_held(k, ptr, size),
    ensures
        w.gained(v, k, ptr, size),
{
    assert forall|l: Bucket| #[trigger]
        w.chunks_out(l) == v.chunks_out(l).union(chunks_in_of(l, k, ptr, size)) by {
        let target = v.chunks_out(l).union(chunks_in_of(l, k, ptr, size));
        assert forall|a: int| w.chunks_out(l).contains(a) == target.contains(a) by {
            lemma_chunks_in(w, k, ptr, size, a);
            if v.free_held(l, a, 1) {
                assert(w.free_held(l, a, 1));
            }
            if w.free_held(l, a, 1) {
                assert(v.free_held(l, a, 1) || (l == k && overlap(a, 1, ptr, size)));
            }
        }
        assert(w.chunks_out(l) =~= target);
    }
}

/// After a deallocation the chunks that are held outside the chains are
/// those that were, without those of the allocation.
pub proof fn lemma_lost(v: BucketsView, w: BucketsView, k: Bucket, ptr: int, size: int)
    requires
        v.inv(),
        v.free_held(k, ptr, size),
        v.kept_but(w, k, ptr, size),
        v.only_from_but(w, k, ptr, size),
    ensures
        w.lost(v, k, ptr, size),
{
    assert forall|l: Bucket| #[trigger]
        w.chunks_out(l) == v.chunks_out(l).difference(chunks_in_of(l, k, ptr, size)) by {
        let target = v.chunks_out(l).difference(chunks_in_of(l, k, ptr, size));
        assert forall|a: int| w.chunks_out(l).contains(a) == target.contains(a) by {
            lemma_chunks_in(v, k, ptr, size, a);
            if v.free_held(l, a, 1) && !(l == k && overlap(ptr, size, a, 1)) {
                assert(w.free_held(l, a, 1));
            }
            if w.free_held(l, a, 1) {
                assert(v.free_held(l, a, 1) && !(l == k && overlap(a, 1, ptr, size)));
            }
        }
        assert(w.chunks_out(l) =~= target);
    }
}

/// After an allocation changed its size where it stands, the chunks that
/// are held outside the chains are those that were, with the chunks of the
/// allocation as it is in place of those of the allocation as it was.
pub proof fn lemma_swapped_in_place(
    v: BucketsView,
    w: BucketsView,
    k: Bucket,
    ptr: int,
    old_size: int,
    new_size: int,
)
    requires
        v.inv(),
        w.inv(),
        v.free_held(k, ptr, old_size),
        w.free_held(k, ptr, new_size),
        v.kept_but(w, k, ptr, old_size),
        forall|l: Bucket, a: int| #[trigger]
            w.free_held(l, a, 1) ==> (v.free_held(l, a, 1) && !(l == k && overlap(
                a,
                1,
                ptr,
                old_size,
            ) && !overlap(a, 1, ptr, new_size))) || (l == k && overlap(a, 1, ptr, new_size)),
    ensures
        w.swapped(v, k, ptr, old_size, k, ptr, new_size),
{
    assert forall|l: Bucket| #[trigger]
        w.chunks_out(l) == v.chunks_out(l).difference(chunks_in_of(l, k, ptr, old_size)).union(
            chunks_in_of(l, k, ptr, new_size),
        ) by {
        let target = v.chunks_out(l).difference(chunks_in_of(l, k, ptr, old_size)).union(
            chunks_in_of(l, k, ptr, new_size),
        );
        assert forall|a: int| w.chunks_out(l).contains(a) == target.contains(a) by {
            lemma_chunks_in(v, k, ptr, old_size, a);
            lemma_chunks_in(w, k, ptr, new_size, a);
            if v.free_held(l, a, 1) && !(l == k && overlap(ptr, old_size, a, 1)) {
                assert(w.free_held(l, a, 1));
            }
            if w.free_held(l, a, 1) {
                assert((v.free_held(l, a, 1) && !(l == k && overlap(a, 1, ptr, old_size)
                    && !overlap(a, 1, ptr, new_size))) || (l == k && overlap(
                    a,
                    1,
                    ptr,
                    new_size,
                )));
            }
        }
        assert(w.chunks_out(l) =~= target);
    }
}

/// After an allocation moved, the chunks that are held outside the chains
/// are those that were, with the chunks of the new allocation in place of
/// those of the old one.
pub proof fn lemma_swapped_moved(
    v: BucketsView,
    w1: BucketsView,
    w: BucketsView,
    k: Bucket,
    ptr: int,
    old_size: int,
    m: Bucket,
    moved: int,
    new_size: int,
)
    requires
        w1.gained(v, m, moved, new_size),
        w.lost(w1, k, ptr, old_size),
        k == m ==> !overlap(moved, new_size, ptr, old_size),
    ensures
        w.swapped(v, k, ptr, old_size, m, moved, new_size),
{
    assert forall|l: Bucket| #[trigger]
        w.chunks_out(l) == v.chunks_out(l).difference(chunks_in_of(l, k, ptr, old_size)).union(
            chunks_in_of(l, m, moved, new_size),
        ) by {
        let target = v.chunks_out(l).difference(chunks_in_of(l, k, ptr, old_size)).union(
            chunks_in_of(l, m, moved, new_size),
        );
        assert(w.chunks_out(l) == w1.chunks_out(l).difference(chunks_in_of(l, k, ptr, old_size)));
        assert(w1.chunks_out(l) == v.chunks_out(l).union(chunks_in_of(l, m, moved, new_size)));
        assert(w.chunks_out(l) =~= target);
    }
}

/// Giving back what was allocated puts the books back: after an allocation
/// of chunks that were not held outside the chains, and the deallocation
/// of the same bytes, the chunks that are held outside the chains are
/// those that were before the two.
pub proof fn lemma_round_trip(
    v: BucketsView,
    allocated: BucketsView,
    deallocated: BucketsView,
    k: Bucket,
    ptr: int,
    size: int,
)
    requires
        allocated.gained(v, k, ptr, size),
        v.chunks_out(k).disjoint(chunks_in(k, ptr, size)),
        deallocated.lost(allocated, k, ptr, size),
    ensures
        deallocated.same_out(v),
{
    assert forall|l: Bucket| #[trigger] deallocated.chunks_out(l) == v.chunks_out(l) by {
        assert(deallocated.chunks_out(l) == allocated.chunks_out(l).difference(
            chunks_in_of(l, k, ptr, size),
        ));
        assert(allocated.chunks_out(l) == v.chunks_out(l).union(chunks_in_of(l, k, ptr, size)));
        assert(deallocated.chunks_out(l) =~= v.chunks_out(l));
    }
}

/// A request that the allocator answered: an allocation that it made, or a
/// deallocation.
pub enum Request {
    /// The `size` bytes at `ptr` were handed out by the chain of `bucket`.
    Allocated { bucket: Bucket, ptr: int, size: int },
    /// The `size` bytes at `ptr` were taken back by the chain of `bucket`.
    Deallocated { bucket: Bucket, ptr: int, size: int },
}

/// Whether the allocator went from `v` to `w` as it does when it answers
/// the request: an allocation lets out the chunks of the allocation, which
/// were not out, and nothing else; a deallocation takes them in, and
/// nothing else.
pub open spec fn answers(v: BucketsView, w: BucketsView, request: Request) -> bool {
    match request {
        Request::Allocated { bucket, ptr, size } => w.gained(v, bucket, ptr, size)
            && v.chunks_out(bucket).disjoint(chunks_in(bucket, ptr, size)) && size > 0,
        Request::Deallocated { bucket, ptr, size } => w.lost(v, bucket, ptr, size),
    }
}

/// Whether `views` is what the allocator was before the first request and
/// after each of the requests.
pub open spec fn history(views: Seq<BucketsView>, requests: Seq<Request>) -> bool {
    &&& views.len() == requests.len() + 1
    &&& forall|i: int|
        0 <= i < requests.len() ==> answers(#[trigger] views[i], views[i + 1], requests[i])
}

/// The allocations that are out after the first `n` requests.
pub open spec fn out_after(requests: Seq<Request>, n: int) -> Set<(Bucket, int, int)>
    decreases n,
{
    if n <= 0 {
        Set::empty()
    } else {
        match requests[n - 1] {
            Request::Allocated { bucket, ptr, size } => out_after(requests, n - 1).insert(
                (bucket, ptr, size),
            ),
            Request::Deallocated { bucket, ptr, size } => out_after(requests, n - 1).remove(
                (bucket, ptr, size),
            ),
        }
    }
}

/// Whether every deallocation among the first `n` requests gives back an
/// allocation that is out when it is made.
pub open spec fn matched(requests: Seq<Request>, n: int) -> bool
    decreases n,
{
    n <= 0 || (matched(requests, n - 1) && match requests[n - 1] {
        Request::Allocated { .. } => true,
        Request::Deallocated { bucket, ptr, size } => out_after(requests, n - 1).contains(
            (bucket, ptr, size),
        ),
    })
}

/// The chunks of chain `l` that belong to the allocations in `out`.
pub open spec fn chunks_of(out: Set<(Bucket, int, int)>, l: Bucket) -> Set<int> {
    Set::new(
        |a: int|
            exists|e: (Bucket, int, int)|
                #![trigger out.contains(e)]
                out.contains(e) && chunks_in_of(l, e.0, e.1, e.2).contains(a),
    )
}

/// Whether the books are right after the first `n` requests: the chunks
/// that are held outside the chains are those that were at the start and
/// those of the allocations that are out, and no chunk belongs to two of
/// these.
pub open spec fn settled(views: Seq<BucketsView>, requests: Seq<Request>, n: int) -> bool {
    let out = out_after(requests, n);
    &&& forall|l: Bucket| #[trigger]
        views[n].chunks_out(l) == views[0].chunks_out(l).union(chunks_of(out, l))
    &&& forall|l: Bucket, e: (Bucket, int, int), a: int|
        #![trigger out.contains(e), views[0].chunks_out(l).contains(a)]
        out.contains(e) && chunks_in_of(l, e.0, e.1, e.2).contains(a) ==> !views[0].chunks_out(
            l,
        ).contains(a)
    &&& forall|l: Bucket, e: (Bucket, int, int), f: (Bucket, int, int), a: int|
        #![trigger out.contains(e), out.contains(f), chunks_in_of(l, e.0, e.1, e.2).contains(a)]
        out.contains(e) && out.contains(f) && e != f && chunks_in_of(l, e.0, e.1, e.2).contains(a)
            ==> !chunks_in_of(l, f.0, f.1, f.2).contains(a)
}

/// The books stay right from one request to the next.
pub proof fn lemma_settled_step(views: Seq<BucketsView>, requests: Seq<Request>, n: int)
    requires
        history(views, requests),
        0 <= n < requests.len(),
        matched(requests, n + 1),
        settled(views, requests, n),
    ensures
        settled(views, requests, n + 1),
{
    let v = views[n];
    let w = views[n + 1];
    let v0 = views[0];
    let out = out_after(requests, n);
    let next = out_after(requests, n + 1);
    assert(answers(views[n], views[n + 1], requests[n]));
    match requests[n] {
        Request::Allocated { bucket, ptr, size } => {
            let e0 = (bucket, ptr, size);
            assert(next == out.insert(e0));
            // the new chunks were not out
            assert forall|l: Bucket, a: int| chunks_in_of(l, bucket, ptr, size).contains(a)
                implies !(#[trigger] v.chunks_out(l).contains(a)) by {}
            assert forall|l: Bucket| #[trigger]
                w.chunks_out(l) == v0.chunks_out(l).union(chunks_of(next, l)) by {
                assert(w.chunks_out(l) == v.chunks_out(l).union(
                    chunks_in_of(l, bucket, ptr, size),
                ));
                assert(v.chunks_out(l) == v0.chunks_out(l).union(chunks_of(out, l)));
                let target = v0.chunks_out(l).union(chunks_of(next, l));
                assert forall|a: int| w.chunks_out(l).contains(a) == target.contains(a) by {
                    if chunks_of(out, l).contains(a) {
                        let e = choose|e: (Bucket, int, int)|
                            #![trigger out.contains(e)]
                            out.contains(e) && chunks_in_of(l, e.0, e.1, e.2).contains(a);
                        assert(next.contains(e));
                    }
                    if chunks_in_of(l, bucket, ptr, size).contains(a) {
                        assert(next.contains(e0));
                    }
                    if chunks_of(next, l).contains(a) {
                        let e = choose|e: (Bucket, int, int)|
                            #![trigger next.contains(e)]
                            next.contains(e) && chunks_in_of(l, e.0, e.1, e.2).contains(a);
                        if e != e0 {
                            assert(out.contains(e));
                        }
                    }
                }
                assert(w.chunks_out(l) =~= target);
            }
            assert forall|l: Bucket, e: (Bucket, int, int), a: int|
                #![trigger next.contains(e), v0.chunks_out(l).contains(a)]
                next.contains(e) && chunks_in_of(l, e.0, e.1, e.2).contains(a) implies !v0.chunks_out(
                l,
            ).contains(a) by {
                if e == e0 {
                    assert(v.chunks_out(l) == v0.chunks_out(l).union(chunks_of(out, l)));
                    assert(!v.chunks_out(l).contains(a));
                } else {
                    assert(out.contains(e));
                }
            }
            assert forall|l: Bucket, e: (Bucket, int, int), f: (Bucket, int, int), a: int|
                #![trigger next.contains(e), next.contains(f), chunks_in_of(l, e.0, e.1, e.2).contains(a)]
                next.contains(e) && next.contains(f) && e != f && chunks_in_of(
                    l,
                    e.0,
                    e.1,
                    e.2,
                ).contains(a) implies !chunks_in_of(l, f.0, f.1, f.2).contains(a) by {
                assert(v.chunks_out(l) == v0.chunks_out(l).union(chunks_of(out, l)));
                if e == e0 {
                    assert(out.contains(f));
                    if chunks_in_of(l, f.0, f.1, f.2).contains(a) {
                        assert(chunks_of(out, l).contains(a));
                        assert(v.chunks_out(l).contains(a));
                    }
                } else if f == e0 {
                    assert(out.contains(e));
                    assert(chunks_of(out, l).contains(a));
                    assert(v.chunks_out(l).contains(a));
                } else {
                    assert(out.contains(e) && out.contains(f));
                }
            }
        },
        Request::Deallocated { bucket, ptr, size } => {
            let e0 = (bucket, ptr, size);
            assert(next == out.remove(e0));
            assert(out.contains(e0));
            assert forall|l: Bucket| #[trigger]
                w.chunks_out(l) == v0.chunks_out(l).union(chunks_of(next, l)) by {
                assert(w.chunks_out(l) == v.chunks_out(l).difference(
                    chunks_in_of(l, bucket, ptr, size),
                ));
                assert(v.chunks_out(l) == v0.chunks_out(l).union(chunks_of(out, l)));
                let target = v0.chunks_out(l).union(chunks_of(next, l));
                assert forall|a: int| w.chunks_out(l).contains(a) == target.contains(a) by {
                    if chunks_of(out, l).contains(a) {
                        let e = choose|e: (Bucket, int, int)|
                            #![trigger out.contains(e)]
                            out.contains(e) && chunks_in_of(l, e.0, e.1, e.2).contains(a);
                        if e != e0 {
                            assert(next.contains(e));
                            assert(!chunks_in_of(l, e0.0, e0.1, e0.2).contains(a));
                        }
                    }
                    if chunks_of(next, l).contains(a) {
                        let e = choose|e: (Bucket, int, int)|
                            #![trigger next.contains(e)]
                            next.contains(e) && chunks_in_of(l, e.0, e.1, e.2).contains(a);
                        assert(out.contains(e) && e != e0);
                        assert(!chunks_in_of(l, e0.0, e0.1, e0.2).contains(a));
                    }
                    if v0.chunks_out(l).contains(a) && chunks_in_of(l, bucket, ptr, size).contains(
                        a,
                    ) {
                        assert(out.contains(e0));
                    }
                }
                assert(w.chunks_out(l) =~= target);
            }
            assert forall|l: Bucket, e: (Bucket, int, int), a: int|
                #![trigger next.contains(e), v0.chunks_out(l).contains(a)]
                next.contains(e) && chunks_in_of(l, e.0, e.1, e.2).contains(a) implies !v0.chunks_out(
                l,
            ).contains(a) by {
                assert(out.contains(e));
            }
            assert forall|l: Bucket, e: (Bucket, int, int), f: (Bucket, int, int), a: int|
                #![trigger next.contains(e), next.contains(f), chunks_in_of(l, e.0, e.1, e.2).contains(a)]
                next.contains(e) && next.contains(f) && e != f && chunks_in_of(
                    l,
                    e.0,
                    e.1,
                    e.2,
                ).contains(a) implies !chunks_in_of(l, f.0, f.1, f.2).contains(a) by {
                assert(out.contains(e) && out.contains(f));
            }
        },
    }
}

/// The books are right after every request of a history in which every
/// deallocation gives back an allocation that is out.
pub proof fn lemma_settled(views: Seq<BucketsView>, requests: Seq<Request>, n: int)
    requires
        history(views, requests),
        0 <= n <= requests.len(),
        matched(requests, n),
    ensures
        settled(views, requests, n),
    decreases n,
{
    if n == 0 {
        let out = out_after(requests, 0);
        assert forall|l: Bucket| #[trigger]
            views[0].chunks_out(l) == views[0].chunks_out(l).union(chunks_of(out, l)) by {
            assert(chunks_of(out, l) =~= Set::<int>::empty());
            assert(views[0].chunks_out(l).union(chunks_of(out, l)) =~= views[0].chunks_out(l));
        }
    } else {
        lemma_settled(views, requests, n - 1);
        lemma_settled_step(views, requests, n - 1);
    }
}

/// After any run of allocations and matching deallocations, with everything
/// given back, the chunks that are held outside the chains are those that
/// were before the run.
pub proof fn lemma_matched_requests(views: Seq<BucketsView>, requests: Seq<Request>)
    requires
        history(views, requests),
        matched(requests, requests.len() as int),
        out_after(requests, requests.len() as int) == Set::<(Bucket, int, int)>::empty(),
    ensures
        views.last().same_out(views[0]),
{
    let n = requests.len() as int;
    lemma_settled(views, requests, n);
    let out = out_after(requests, n);
    assert forall|l: Bucket| #[trigger] views.last().chunks_out(l) == views[0].chunks_out(l) by {
        assert(views[n].chunks_out(l) == views[0].chunks_out(l).union(chunks_of(out, l)));
        assert(chunks_of(out, l) =~= Set::<int>::empty());
        assert(views[n].chunks_out(l) =~= views[0].chunks_out(l));
    }
}

/// After any run of allocations and matching deallocations on an allocator
/// that started with nothing, with everything given back, every node of a
/// chain that hands out no stack of another chain is empty: its bitmap is
/// zero, and its cached count of free chunks is 64. This holds of the very
/// small and of the small chain whatever the other chains hold, and of
/// every other chain but the metadata chain while no chain gets its stacks
/// from it.
pub proof fn lemma_matched_requests_drain(
    views: Seq<BucketsView>,
    requests: Seq<Request>,
    k: Bucket,
    i: int,
)
    requires
        history(views, requests),
        matched(requests, requests.len() as int),
        out_after(requests, requests.len() as int) == Set::<(Bucket, int, int)>::empty(),
        views[0] == BucketsView::empty(),
        views.last().inv(),
        k != Bucket::Metadata,
        forall|l: Bucket| l.parent() == Some(k) ==> (#[trigger] views.last().row(l)).len() == 0,
        views.last().has(k, i),
    ensures
        views.last().row(k).stacks[i].used == Set::<int>::empty(),
        views.last().row(k).stacks[i].height == 0,
        views.last().row(k).spaces[i] == 64,
{
    lemma_matched_requests(views, requests);
    lemma_nothing_out_at_start(k);
    assert(views.last().chunks_out(k) == views[0].chunks_out(k));
    lemma_nothing_out(views.last(), k, i);
}

} // verus!
