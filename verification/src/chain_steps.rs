//! How the invariant of the six chains outlasts each step of the
//! allocator: serving a request from a chain, taking an allocation back,
//! putting a node in front of a chain, and cutting a node out of one.

use vstd::prelude::*;
use vstd::arithmetic::power2::is_pow2;
use crate::bitmapped_stack::{
    StackView,
    overlap,
    lemma_allocated,
    lemma_chunks_and_bytes,
    lemma_deallocated,
    lemma_holds,
};
use crate::chains::{Bucket, BucketsView, Row};
use crate::sized_allocator::{
    all_wf,
    first_fit,
    held,
    lemma_allocated_frame,
    lemma_deallocated_frame,
    lemma_first_fit,
    lemma_apart_remove,
    lemma_first_owner,
    lemma_grown_frame,
    lemma_owner_unique,
    lemma_prepended_frame,
    lemma_shrunk_frame,
};

verus! {

/// What `with_row` does to each chain.
pub proof fn lemma_with_row(v: BucketsView, k: Bucket, row: Row)
    ensures
        v.with_row(k, row).row(k) == row,
        forall|l: Bucket| l != k ==> #[trigger] v.with_row(k, row).row(l) == v.row(l),
        v.with_row(k, row).metadata == v.with_row(k, row).row(Bucket::Metadata),
        v.metadata == v.row(Bucket::Metadata),
{
}

/// A chain of a well-formed row is a well-formed chain.
pub proof fn lemma_row_chain(row: Row, chunk: int)
    requires
        row.wf(chunk),
        row.len() >= 1,
    ensures
        row.chain().wf(),
        row.chain().chunk() == chunk,
        row == Row::of_chain(row.headers[0], row.chain()),
        all_wf(row.stacks, chunk),
{
    assert(row.stacks[0].wf());
    assert((seq![row.headers[0]] + row.headers.skip(1)) =~= row.headers);
}

/// The stacks of a well-formed row are well formed.
pub proof fn lemma_row_all_wf(row: Row, chunk: int)
    requires
        row.wf(chunk),
    ensures
        all_wf(row.stacks, chunk),
{
    assert forall|i: int| 0 <= i < row.stacks.len() implies (#[trigger] row.stacks[i]).wf()
        && row.stacks[i].chunk == chunk by {}
}

/// What a chain hands out lies in the stack of one of its nodes.
pub proof fn lemma_held_inside(row: Row, chunk: int, q: int, t: int)
    requires
        row.wf(chunk),
        row.holds(q, t),
    ensures
        0 <= row.owner(q) < row.len(),
        row.stacks[row.owner(q)].holds(q, t),
        row.stacks[row.owner(q)].base <= q,
        q + t <= row.stacks[row.owner(q)].base + 64 * chunk,
        chunk > 0,
        (q - row.stacks[row.owner(q)].base) % chunk == 0,
{
    lemma_first_owner(row.stacks, q);
    let j = row.owner(q);
    assert(row.stacks[j].wf());
    lemma_holds(row.stacks[j], q, t);
}

// ---------------------------------------------------------------------
// A chain is replaced by one with the same nodes at the same places.
// ---------------------------------------------------------------------

/// Replacing a chain by one with the same nodes at the same places, in
/// which the stacks and the metadata of nodes are still handed out, keeps
/// the invariant.
pub proof fn lemma_replace_row(v: BucketsView, k: Bucket, row: Row)
    requires
        v.inv(),
        row.wf(k.chunk()),
        v.row(k).same_places(row),
        forall|l: Bucket, j: int|
            #![trigger v.row(l).stacks[j]]
            v.has(l, j) && l.parent() == Some(k) ==> row.holds(v.base(l, j), l.stack_bytes()),
        k == Bucket::Metadata ==> forall|l: Bucket, j: int|
            #![trigger v.row(l).headers[j]]
            v.has(l, j) ==> row.holds(v.header(l, j), 64),
    ensures
        v.with_row(k, row).inv(),
{
    let w = v.with_row(k, row);
    lemma_with_row(v, k, row);
    assert forall|l: Bucket| #[trigger] w.row(l).wf(l.chunk()) by {
        assert(v.row(l).wf(l.chunk()));
    }
    assert forall|l: Bucket, j: int|
        #![trigger w.row(l).stacks[j]]
        w.has(l, j) && l.parent() is Some implies w.row(l.parent().unwrap()).holds(
        w.base(l, j),
        l.stack_bytes(),
    ) by {
        assert(v.row(l).stacks[j].same_place(w.row(l).stacks[j]));
        assert(v.row(l.parent().unwrap()).holds(v.base(l, j), l.stack_bytes()));
    }
    assert forall|l: Bucket, j: int| #![trigger w.row(l).headers[j]] w.has(l, j) implies w.metadata.holds(
        w.header(l, j),
        64,
    ) by {
        assert(v.row(l).stacks[j].same_place(w.row(l).stacks[j]));
        assert(v.metadata.holds(v.header(l, j), 64));
    }
    assert forall|l: Bucket, i: int, m: Bucket, j: int|
        #![trigger w.row(l).headers[i], w.row(m).headers[j]]
        w.has(l, i) && w.has(m, j) && (l != m || i != j) implies w.header(l, i) != w.header(
        m,
        j,
    ) by {
        assert(v.row(l).stacks[i].same_place(w.row(l).stacks[i]));
        assert(v.row(m).stacks[j].same_place(w.row(m).stacks[j]));
        assert(v.header(l, i) != v.header(m, j));
    }
    assert forall|l: Bucket, i: int, m: Bucket, j: int|
        #![trigger w.row(l).stacks[i], w.row(m).stacks[j]]
        w.has(l, i) && w.has(m, j) && l != m && l.parent() == m.parent() implies w.row(
        l,
    ).stacks[i].apart(w.row(m).stacks[j]) by {
        assert(v.row(l).stacks[i].same_place(w.row(l).stacks[i]));
        assert(v.row(m).stacks[j].same_place(w.row(m).stacks[j]));
        assert(v.row(l).stacks[i].apart(v.row(m).stacks[j]));
    }
    assert forall|i: int|
        #![trigger w.metadata.stacks[i]]
        0 <= i < w.metadata.len() implies w.metadata.stacks[i].owns(w.metadata.headers[i]) by {
        assert(v.metadata.stacks[i].same_place(w.metadata.stacks[i]));
        assert(v.metadata.stacks[i].owns(v.metadata.headers[i]));
    }
    assert forall|i: int|
        #![trigger w.very_large.stacks[i]]
        0 <= i < w.very_large.len() implies w.very_large.stacks[i].base > 0 by {
        assert(v.row(Bucket::VeryLarge).stacks[i].same_place(w.row(Bucket::VeryLarge).stacks[i]));
        assert(v.very_large.stacks[i].base > 0);
    }
}

/// An allocation that is held outside the chains stays so when a chain is
/// replaced by one with the same nodes at the same places that still hands
/// the allocation out.
pub proof fn lemma_replace_row_kept(v: BucketsView, k: Bucket, row: Row, l: Bucket, q: int, t: int)
    requires
        v.row(k).same_places(row),
        v.free_held(l, q, t),
        l == k ==> row.holds(q, t),
    ensures
        v.with_row(k, row).free_held(l, q, t),
{
    let w = v.with_row(k, row);
    lemma_with_row(v, k, row);
    assert forall|m: Bucket, j: int|
        #![trigger w.row(m).stacks[j]]
        w.has(m, j) && m.parent() == Some(l) implies !overlap(
        q,
        t,
        w.base(m, j),
        m.stack_bytes(),
    ) by {
        assert(v.row(m).stacks[j].same_place(w.row(m).stacks[j]));
        assert(!overlap(q, t, v.base(m, j), m.stack_bytes()));
    }
    if l == Bucket::Metadata {
        assert forall|m: Bucket, j: int| #![trigger w.row(m).headers[j]] w.has(m, j) implies !overlap(
            q,
            t,
            w.header(m, j),
            64,
        ) by {
            assert(v.row(m).stacks[j].same_place(w.row(m).stacks[j]));
            assert(!overlap(q, t, v.header(m, j), 64));
        }
    }
}

/// What the allocator hands out from a chain that has room was free: it is
/// aligned, it has no byte in common with anything that the chain handed
/// out before, it is held outside the chains afterwards, and so is all
/// that was held outside the chains before.
pub proof fn lemma_step_allocated(v: BucketsView, k: Bucket, size: int, align: int)
    requires
        v.inv(),
        size > 0,
        is_pow2(align),
        v.row(k).can_alloc(size, align),
    ensures
        v.with_row(k, v.row(k).allocated(size, align)).inv(),
        v.kept_in(v.with_row(k, v.row(k).allocated(size, align))),
        v.with_row(k, v.row(k).allocated(size, align)).free_held(
            k,
            v.row(k).alloc_addr(size, align),
            size,
        ),
        v.row(k).alloc_addr(size, align) % align == 0,
        forall|q: int, t: int| #[trigger]
            v.row(k).holds(q, t) ==> !overlap(v.row(k).alloc_addr(size, align), size, q, t),
        v.row(k).same_places(v.row(k).allocated(size, align)),
{
    let r = v.row(k);
    let r2 = r.allocated(size, align);
    let p = r.alloc_addr(size, align);
    let w = v.with_row(k, r2);
    lemma_first_fit(r.stacks, size, align);
    assert(r.wf(k.chunk()));
    lemma_row_chain(r, k.chunk());
    lemma_allocated_frame(r.chain(), size, align);
    assert(r2.stacks == r.chain().allocated(size, align).stacks);
    assert(r2.wf(k.chunk())) by {
        let c2 = r.chain().allocated(size, align);
        assert forall|i: int| #![trigger r2.stacks[i]] 0 <= i < r2.stacks.len() implies {
            &&& r2.stacks[i].wf()
            &&& r2.stacks[i].chunk == k.chunk()
            &&& r2.spaces[i] == 64 - r2.stacks[i].height
        } by {
            assert(c2.stacks[i].wf());
            assert(r2.spaces[i] == c2.spaces[i]);
        }
    }
    assert(r.same_places(r2));
    lemma_with_row(v, k, r2);
    assert forall|l: Bucket, j: int|
        #![trigger v.row(l).stacks[j]]
        v.has(l, j) && l.parent() == Some(k) implies r2.holds(v.base(l, j), l.stack_bytes()) by {
        assert(v.row(k).holds(v.base(l, j), l.stack_bytes()));
        assert(held(r.stacks, v.base(l, j), l.stack_bytes()));
    }
    if k == Bucket::Metadata {
        assert forall|l: Bucket, j: int| #![trigger v.row(l).headers[j]] v.has(l, j) implies r2.holds(
            v.header(l, j),
            64,
        ) by {
            assert(v.metadata.holds(v.header(l, j), 64));
            assert(held(r.stacks, v.header(l, j), 64));
        }
    }
    lemma_replace_row(v, k, r2);
    assert forall|l: Bucket, q: int, t: int| #[trigger] v.free_held(l, q, t) implies w.free_held(
        l,
        q,
        t,
    ) by {
        if l == k {
            assert(held(r.stacks, q, t));
        }
        lemma_replace_row_kept(v, k, r2, l, q, t);
    }
    assert(w.free_held(k, p, size)) by {
        assert forall|l: Bucket, j: int|
            #![trigger w.row(l).stacks[j]]
            w.has(l, j) && l.parent() == Some(k) implies !overlap(
            p,
            size,
            w.base(l, j),
            l.stack_bytes(),
        ) by {
            assert(v.row(k).holds(v.base(l, j), l.stack_bytes()));
            assert(held(r.stacks, v.base(l, j), l.stack_bytes()));
        }
        if k == Bucket::Metadata {
            assert forall|l: Bucket, j: int|
                #![trigger w.row(l).headers[j]]
                w.has(l, j) implies !overlap(p, size, w.header(l, j), 64) by {
                if l == k {
                    assert(r.stacks[j].same_place(r2.stacks[j]));
                }
                assert(v.has(l, j));
                assert(v.metadata.holds(v.header(l, j), 64));
                assert(held(r.stacks, v.header(l, j), 64));
            }
        }
    }
}

// ---------------------------------------------------------------------
// A node is put in front of a chain.
// ---------------------------------------------------------------------

/// The nodes of the chains after a node was put in front of chain `k`: the
/// new node, and behind it the nodes that were there.
pub proof fn lemma_pushed_nodes(v: BucketsView, k: Bucket, head: StackView, header: int)
    requires
        v.row(k).headers.len() == v.row(k).stacks.len(),
    ensures
        ({
            let w = v.with_row(k, v.row(k).pushed(head, header));
            &&& w.row(k).len() == v.row(k).len() + 1
            &&& w.row(k).stacks[0] == head
            &&& w.row(k).headers[0] == header
            &&& forall|j: int|
                1 <= j <= v.row(k).len() ==> #[trigger] w.row(k).stacks[j] == v.row(k).stacks[j - 1]
            &&& forall|j: int|
                1 <= j <= v.row(k).len() ==> #[trigger] w.row(k).headers[j] == v.row(k).headers[j
                    - 1]
            &&& forall|l: Bucket| l != k ==> #[trigger] w.row(l) == v.row(l)
            &&& w.metadata == w.row(Bucket::Metadata)
        }),
{
}

/// A chain with a node put in front is well formed, where the new stack is
/// well formed, has the chunk size of the chain and lies apart from the
/// stacks of the chain; and what the chain handed out it still does.
pub proof fn lemma_pushed_row(row: Row, chunk: int, head: StackView, header: int)
    requires
        row.wf(chunk),
        head.wf(),
        head.chunk == chunk,
        forall|i: int| 0 <= i < row.stacks.len() ==> head.apart(#[trigger] row.stacks[i]),
    ensures
        row.pushed(head, header).wf(chunk),
        forall|q: int, t: int| #[trigger]
            held(row.stacks, q, t) ==> held(row.pushed(head, header).stacks, q, t),
        forall|q: int, t: int|
            held(row.pushed(head, header).stacks, q, t) ==> #[trigger] held(row.stacks, q, t)
                || head.holds(q, t),
        forall|q: int, t: int| #[trigger]
            head.holds(q, t) ==> held(row.pushed(head, header).stacks, q, t),
{
    let r2 = row.pushed(head, header);
    lemma_row_all_wf(row, chunk);
    lemma_prepended_frame(row.stacks, chunk, head);
    assert forall|i: int| #![trigger r2.stacks[i]] 0 <= i < r2.stacks.len() implies {
        &&& r2.stacks[i].wf()
        &&& r2.stacks[i].chunk == chunk
        &&& r2.spaces[i] == 64 - r2.stacks[i].height
    } by {
        if i > 0 {
            assert(r2.stacks[i] == row.stacks[i - 1]);
            assert(r2.spaces[i] == row.spaces[i - 1]);
        }
    }
    assert forall|q: int, t: int| #[trigger] head.holds(q, t) implies held(r2.stacks, q, t) by {
        assert(r2.stacks[0] == head);
    }
}

/// Every chain is well formed after a node was put in front of one.
pub proof fn lemma_pushed_rows_wf(v: BucketsView, k: Bucket, head: StackView, header: int)
    requires
        v.rows_wf(),
        head.wf(),
        head.chunk == k.chunk(),
        forall|i: int| 0 <= i < v.row(k).stacks.len() ==> head.apart(#[trigger] v.row(k).stacks[i]),
    ensures
        v.with_row(k, v.row(k).pushed(head, header)).rows_wf(),
{
    let w = v.with_row(k, v.row(k).pushed(head, header));
    assert(v.row(k).wf(k.chunk()));
    lemma_pushed_row(v.row(k), k.chunk(), head, header);
    assert forall|l: Bucket| #[trigger] w.row(l).wf(l.chunk()) by {
        assert(v.row(l).wf(l.chunk()));
    }
}

/// The stacks of all nodes are handed out by `hosts` after a node was put
/// in front of a chain, where the stack of the new node is.
pub proof fn lemma_pushed_hosted(
    v: BucketsView,
    hosts: BucketsView,
    k: Bucket,
    head: StackView,
    header: int,
)
    requires
        v.row(k).headers.len() == v.row(k).stacks.len(),
        v.hosted_by(hosts),
        k.parent() matches Some(p) ==> hosts.row(p).holds(head.base, k.stack_bytes()),
    ensures
        v.with_row(k, v.row(k).pushed(head, header)).hosted_by(hosts),
{
    let w = v.with_row(k, v.row(k).pushed(head, header));
    lemma_pushed_nodes(v, k, head, header);
    assert forall|l: Bucket, j: int|
        #![trigger w.row(l).stacks[j]]
        w.has(l, j) && l.parent() is Some implies hosts.row(l.parent().unwrap()).holds(
        w.base(l, j),
        l.stack_bytes(),
    ) by {
        if l == k && j > 0 {
            assert(w.row(l).stacks[j] == v.row(l).stacks[j - 1]);
            assert(v.has(l, j - 1));
        } else if l != k {
            assert(w.row(l).stacks[j] == v.row(l).stacks[j]);
            assert(v.has(l, j));
        }
    }
}

/// The metadata of all nodes is handed out by `meta` after a node was put
/// in front of a chain, where the metadata of the new node is.
pub proof fn lemma_pushed_headed(v: BucketsView, meta: Row, k: Bucket, head: StackView, header: int)
    requires
        v.row(k).headers.len() == v.row(k).stacks.len(),
        v.headed_by(meta),
        meta.holds(header, 64),
    ensures
        v.with_row(k, v.row(k).pushed(head, header)).headed_by(meta),
{
    let w = v.with_row(k, v.row(k).pushed(head, header));
    lemma_pushed_nodes(v, k, head, header);
    assert forall|l: Bucket, j: int| #![trigger w.row(l).headers[j]] w.has(l, j) implies meta.holds(
        w.header(l, j),
        64,
    ) by {
        if l == k && j > 0 {
            assert(w.row(l).headers[j] == v.row(l).headers[j - 1]);
            assert(v.has(l, j - 1));
        } else if l != k {
            assert(w.row(l).headers[j] == v.row(l).headers[j]);
            assert(v.has(l, j));
        }
    }
}

/// No two nodes have their metadata at the same address after a node was
/// put in front of a chain, where no node had its metadata at the address
/// of the new node's.
pub proof fn lemma_pushed_distinct(v: BucketsView, k: Bucket, head: StackView, header: int)
    requires
        v.row(k).headers.len() == v.row(k).stacks.len(),
        v.headers_distinct(),
        forall|l: Bucket, j: int|
            #![trigger v.row(l).headers[j]]
            v.has(l, j) ==> v.header(l, j) != header,
    ensures
        v.with_row(k, v.row(k).pushed(head, header)).headers_distinct(),
{
    let w = v.with_row(k, v.row(k).pushed(head, header));
    lemma_pushed_nodes(v, k, head, header);
    assert forall|l: Bucket, i: int, m: Bucket, j: int|
        #![trigger w.row(l).headers[i], w.row(m).headers[j]]
        w.has(l, i) && w.has(m, j) && (l != m || i != j) implies w.header(l, i) != w.header(
        m,
        j,
    ) by {
        let i0 = if l == k {
            i - 1
        } else {
            i
        };
        let j0 = if m == k {
            j - 1
        } else {
            j
        };
        if !(l == k && i == 0) {
            assert(w.row(l).headers[i] == v.row(l).headers[i0]);
            assert(v.has(l, i0));
        }
        if !(m == k && j == 0) {
            assert(w.row(m).headers[j] == v.row(m).headers[j0]);
            assert(v.has(m, j0));
        }
    }
}

/// The stacks of chains with the same parent lie apart after a node was
/// put in front of a chain, where the new stack lies apart from the stacks
/// of the other chains with the same parent.
pub proof fn lemma_pushed_siblings(v: BucketsView, k: Bucket, head: StackView, header: int)
    requires
        v.row(k).headers.len() == v.row(k).stacks.len(),
        v.siblings_apart(),
        forall|l: Bucket, j: int|
            #![trigger v.row(l).stacks[j]]
            v.has(l, j) && l != k && l.parent() == k.parent() ==> head.apart(v.row(l).stacks[j]),
    ensures
        v.with_row(k, v.row(k).pushed(head, header)).siblings_apart(),
{
    let w = v.with_row(k, v.row(k).pushed(head, header));
    lemma_pushed_nodes(v, k, head, header);
    assert forall|l: Bucket, i: int, m: Bucket, j: int|
        #![trigger w.row(l).stacks[i], w.row(m).stacks[j]]
        w.has(l, i) && w.has(m, j) && l != m && l.parent() == m.parent() implies w.row(
        l,
    ).stacks[i].apart(w.row(m).stacks[j]) by {
        let i0 = if l == k {
            i - 1
        } else {
            i
        };
        let j0 = if m == k {
            j - 1
        } else {
            j
        };
        if !(l == k && i == 0) {
            assert(w.row(l).stacks[i] == v.row(l).stacks[i0]);
            assert(v.has(l, i0));
        }
        if !(m == k && j == 0) {
            assert(w.row(m).stacks[j] == v.row(m).stacks[j0]);
            assert(v.has(m, j0));
        }
    }
}

/// The metadata of each node of the metadata chain lies in the node's own
/// stack after a node was put in front of a chain; where that chain is the
/// metadata chain, if that holds of the new node.
pub proof fn lemma_pushed_self_hosted(v: BucketsView, k: Bucket, head: StackView, header: int)
    requires
        v.row(k).headers.len() == v.row(k).stacks.len(),
        v.self_hosted(),
        k == Bucket::Metadata ==> head.owns(header),
    ensures
        v.with_row(k, v.row(k).pushed(head, header)).self_hosted(),
{
    let w = v.with_row(k, v.row(k).pushed(head, header));
    lemma_pushed_nodes(v, k, head, header);
    assert forall|i: int|
        #![trigger w.metadata.stacks[i]]
        0 <= i < w.metadata.len() implies w.metadata.stacks[i].owns(w.metadata.headers[i]) by {
        if k == Bucket::Metadata {
            if i > 0 {
                assert(w.row(k).stacks[i] == v.row(k).stacks[i - 1]);
                assert(w.row(k).headers[i] == v.row(k).headers[i - 1]);
                assert(v.metadata.stacks[i - 1].owns(v.metadata.headers[i - 1]));
            }
        } else {
            assert(v.metadata.stacks[i].owns(v.metadata.headers[i]));
        }
    }
}

/// No stack of the very large chain starts at the null address after a
/// node was put in front of a chain; where that chain is the very large
/// chain, if the new stack does not.
pub proof fn lemma_pushed_nonnull(v: BucketsView, k: Bucket, head: StackView, header: int)
    requires
        v.row(k).headers.len() == v.row(k).stacks.len(),
        v.blocks_nonnull(),
        k == Bucket::VeryLarge ==> head.base > 0,
    ensures
        v.with_row(k, v.row(k).pushed(head, header)).blocks_nonnull(),
{
    let w = v.with_row(k, v.row(k).pushed(head, header));
    lemma_pushed_nodes(v, k, head, header);
    assert forall|i: int|
        #![trigger w.very_large.stacks[i]]
        0 <= i < w.very_large.len() implies w.very_large.stacks[i].base > 0 by {
        if k == Bucket::VeryLarge {
            if i > 0 {
                assert(w.row(k).stacks[i] == v.row(k).stacks[i - 1]);
                assert(v.very_large.stacks[i - 1].base > 0);
            }
        } else {
            assert(v.very_large.stacks[i].base > 0);
        }
    }
}

/// Bytes that have nothing in common with the stack or the metadata of a
/// node still have not after a node was put in front of a chain, where
/// they have nothing in common with the new node's.
pub proof fn lemma_pushed_clear(
    v: BucketsView,
    k: Bucket,
    head: StackView,
    header: int,
    l: Bucket,
    q: int,
    t: int,
)
    requires
        v.row(k).headers.len() == v.row(k).stacks.len(),
        v.clear_of(l, q, t),
        k.parent() == Some(l) ==> !overlap(q, t, head.base, k.stack_bytes()),
        l == Bucket::Metadata ==> !overlap(q, t, header, 64),
    ensures
        v.with_row(k, v.row(k).pushed(head, header)).clear_of(l, q, t),
{
    let w = v.with_row(k, v.row(k).pushed(head, header));
    lemma_pushed_nodes(v, k, head, header);
    assert forall|m: Bucket, j: int|
        #![trigger w.row(m).stacks[j]]
        w.has(m, j) && m.parent() == Some(l) implies !overlap(
        q,
        t,
        w.base(m, j),
        m.stack_bytes(),
    ) by {
        if m == k && j > 0 {
            assert(w.row(m).stacks[j] == v.row(m).stacks[j - 1]);
            assert(v.has(m, j - 1));
        } else if m != k {
            assert(w.row(m).stacks[j] == v.row(m).stacks[j]);
            assert(v.has(m, j));
        }
    }
    if l == Bucket::Metadata {
        assert forall|m: Bucket, j: int| #![trigger w.row(m).headers[j]] w.has(m, j) implies !overlap(
            q,
            t,
            w.header(m, j),
            64,
        ) by {
            if m == k && j > 0 {
                assert(w.row(m).headers[j] == v.row(m).headers[j - 1]);
                assert(v.has(m, j - 1));
            } else if m != k {
                assert(w.row(m).headers[j] == v.row(m).headers[j]);
                assert(v.has(m, j));
            }
        }
    }
}

/// The stacks of all nodes are still handed out after the chains that hand
/// them out changed, where those chains hand out all that they did.
pub proof fn lemma_hosts_kept(v: BucketsView, hosts: BucketsView, after: BucketsView)
    requires
        v.hosted_by(hosts),
        forall|p: Bucket, q: int, t: int| #[trigger]
            hosts.row(p).holds(q, t) ==> after.row(p).holds(q, t),
    ensures
        v.hosted_by(after),
{
    assert forall|l: Bucket, j: int|
        #![trigger v.row(l).stacks[j]]
        v.has(l, j) && l.parent() is Some implies after.row(l.parent().unwrap()).holds(
        v.base(l, j),
        l.stack_bytes(),
    ) by {
        assert(hosts.row(l.parent().unwrap()).holds(v.base(l, j), l.stack_bytes()));
    }
}

/// The metadata of all nodes is still handed out after the metadata chain
/// changed, where it hands out all that it did.
pub proof fn lemma_meta_kept(v: BucketsView, meta: Row, after: Row)
    requires
        v.headed_by(meta),
        forall|q: int, t: int| #[trigger] meta.holds(q, t) ==> after.holds(q, t),
    ensures
        v.headed_by(after),
{
    assert forall|l: Bucket, j: int| #![trigger v.row(l).headers[j]] v.has(l, j) implies after.holds(
        v.header(l, j),
        64,
    ) by {
        assert(meta.holds(v.header(l, j), 64));
    }
}

/// Whether every allocation that is held outside the chains in `v` still is
/// in `after`, but for what has a byte in common with the stack at `base`
/// of a new node of chain `k`, or with the node's metadata at `header`.
pub open spec fn kept_but_node(
    v: BucketsView,
    after: BucketsView,
    k: Bucket,
    base: int,
    header: int,
) -> bool {
    forall|l: Bucket, q: int, t: int| #[trigger]
        v.free_held(l, q, t) && !(k.parent() == Some(l) && overlap(q, t, base, k.stack_bytes()))
            && !(l == Bucket::Metadata && overlap(q, t, header, 64)) ==> after.free_held(l, q, t)
}

/// The empty stack of a valid geometry is well formed.
pub proof fn lemma_empty_stack(base: int, chunk: int)
    requires
        StackView::valid_geometry(base, chunk),
    ensures
        StackView::empty(base, chunk).wf(),
        StackView::empty(base, chunk).height == 0,
{
    crate::bits::lemma_top_below_unique(Set::<int>::empty(), 64, 0);
}

/// A new node with an empty stack at the head of a chain other than the
/// metadata chain keeps the invariant, where its stack and its metadata
/// were held outside the chains before; for the very large chain, where
/// its stack lies apart from the stacks of the chain.
pub proof fn lemma_step_pushed(v: BucketsView, k: Bucket, base: int, header: int)
    requires
        v.inv(),
        k != Bucket::Metadata,
        StackView::valid_geometry(base, k.chunk()),
        k.parent() matches Some(p) ==> v.free_held(p, base, k.stack_bytes()),
        k == Bucket::VeryLarge ==> base > 0 && forall|i: int|
            0 <= i < v.very_large.len() ==> StackView::empty(base, k.chunk()).apart(
                #[trigger] v.very_large.stacks[i],
            ),
        v.free_held(Bucket::Metadata, header, 64),
    ensures
        v.with_row(k, v.row(k).pushed(StackView::empty(base, k.chunk()), header)).inv(),
        kept_but_node(
            v,
            v.with_row(k, v.row(k).pushed(StackView::empty(base, k.chunk()), header)),
            k,
            base,
            header,
        ),
{
    let r = v.row(k);
    let head = StackView::empty(base, k.chunk());
    let r2 = r.pushed(head, header);
    let w = v.with_row(k, r2);
    lemma_empty_stack(base, k.chunk());
    assert(r.wf(k.chunk()));
    lemma_pushed_nodes(v, k, head, header);
    assert forall|i: int| 0 <= i < r.stacks.len() implies head.apart(#[trigger] r.stacks[i]) by {
        if k != Bucket::VeryLarge {
            assert(v.has(k, i));
            assert(!overlap(base, k.stack_bytes(), v.base(k, i), k.stack_bytes()));
        }
    }
    lemma_pushed_rows_wf(v, k, head, header);
    lemma_pushed_row(r, k.chunk(), head, header);
    assert forall|p: Bucket, q: int, t: int| #[trigger] v.row(p).holds(q, t) implies w.row(
        p,
    ).holds(q, t) by {
        if p == k {
            assert(held(r.stacks, q, t));
        }
    }
    lemma_hosts_kept(v, v, w);
    lemma_pushed_hosted(v, w, k, head, header);
    lemma_pushed_headed(v, v.metadata, k, head, header);
    lemma_pushed_distinct(v, k, head, header);
    assert forall|l: Bucket, j: int|
        #![trigger v.row(l).stacks[j]]
        v.has(l, j) && l != k && l.parent() == k.parent() implies head.apart(
        v.row(l).stacks[j],
    ) by {
        assert(v.row(l).wf(l.chunk()));
        assert(!overlap(base, k.stack_bytes(), v.base(l, j), l.stack_bytes()));
    }
    lemma_pushed_siblings(v, k, head, header);
    lemma_pushed_self_hosted(v, k, head, header);
    lemma_pushed_nonnull(v, k, head, header);
    assert forall|l: Bucket, q: int, t: int| #[trigger]
        v.free_held(l, q, t) && !(k.parent() == Some(l) && overlap(q, t, base, k.stack_bytes()))
            && !(l == Bucket::Metadata && overlap(q, t, header, 64)) implies w.free_held(
        l,
        q,
        t,
    ) by {
        assert(v.row(l).holds(q, t));
        lemma_pushed_clear(v, k, head, header, l, q, t);
    }
}

/// The stack of a new node of the metadata chain at `mem`, with the node's
/// own metadata in its first chunk.
pub open spec fn metadata_head(mem: int) -> StackView {
    StackView::empty(mem, 64).allocated(64, 64)
}

/// The stack of a new node of the metadata chain at `mem`, with the node's
/// own metadata in its first chunk and that of another node in its second.
pub open spec fn metadata_head_shared(mem: int) -> StackView {
    metadata_head(mem).allocated(64, 64)
}

/// The stack of a new node of the very large chain at `block`, whose first
/// chunk is the stack of a new node of the metadata chain.
pub open spec fn very_large_head(block: int) -> StackView {
    StackView::empty(block, 4096).allocated(4096, 64)
}

/// What the stack of a new node of the metadata chain hands out.
pub proof fn lemma_metadata_heads(mem: int)
    requires
        StackView::valid_geometry(mem, 64),
    ensures
        StackView::empty(mem, 64).wf(),
        StackView::empty(mem, 64).can_alloc(64, 64),
        StackView::empty(mem, 64).alloc_addr(64) == mem,
        metadata_head(mem).wf(),
        metadata_head(mem).holds(mem, 64),
        metadata_head(mem).same_place(StackView::empty(mem, 64)),
        metadata_head(mem).can_alloc(64, 64),
        metadata_head(mem).alloc_addr(64) == mem + 64,
        metadata_head_shared(mem).wf(),
        metadata_head_shared(mem).holds(mem, 64),
        metadata_head_shared(mem).holds(mem + 64, 64),
        metadata_head_shared(mem).same_place(StackView::empty(mem, 64)),
{
    assert(is_pow2(64)) by {
        reveal_with_fuel(is_pow2, 8);
    }
    let e = StackView::empty(mem, 64);
    lemma_empty_stack(mem, 64);
    crate::bitmapped_stack::lemma_aligned_top(e, 64);
    assert(e.alloc_start(64) == 0);
    assert(crate::arith::chunks_for(64, 64) == 1);
    crate::bitmapped_stack::lemma_allocated(e, 64, 64);
    let m = metadata_head(mem);
    crate::bitmapped_stack::lemma_aligned_top(m, 64);
    assert(m.height == 1);
    assert(m.addr_of(1) == mem + 64);
    assert((mem + 64) % 64 == 0) by {
        vstd::arithmetic::div_mod::lemma_mod_adds(mem, 64, 64);
    }
    assert(m.alloc_addr(64) == mem + 64);
    assert(m.alloc_start(64) == 1);
    crate::bitmapped_stack::lemma_allocated(m, 64, 64);
    let s = metadata_head_shared(mem);
    assert(s.chunk_of(mem) == 0);
    assert(s.chunks_at(mem, 64).subset_of(s.used)) by {
        assert(m.chunks_at(mem, 64).subset_of(m.used));
    }
}

/// What the stack of a new node of the very large chain hands out, whose
/// first chunk is the stack of a new node of the metadata chain.
pub proof fn lemma_very_large_head(block: int)
    requires
        StackView::valid_geometry(block, 4096),
    ensures
        StackView::valid_geometry(block, 64),
        StackView::empty(block, 4096).wf(),
        StackView::empty(block, 4096).can_alloc(4096, 64),
        StackView::empty(block, 4096).alloc_addr(64) == block,
        very_large_head(block).wf(),
        very_large_head(block).holds(block, 4096),
        very_large_head(block).same_place(StackView::empty(block, 4096)),
{
    assert(is_pow2(64) && is_pow2(4096)) by {
        reveal_with_fuel(is_pow2, 14);
    }
    assert(block % 64 == 0) by {
        crate::arith::lemma_multiple_of_multiple(block, 64, 4096);
    }
    let b = StackView::empty(block, 4096);
    lemma_empty_stack(block, 4096);
    crate::bitmapped_stack::lemma_aligned_top(b, 64);
    assert(b.alloc_start(64) == 0);
    assert(crate::arith::chunks_for(4096, 4096) == 1);
    crate::bitmapped_stack::lemma_allocated(b, 4096, 64);
}

/// What the very large chain hands out has no byte in common with a block
/// that lies apart from the stacks of the chain.
pub proof fn lemma_outside_block(v: BucketsView, block: int, q: int, t: int)
    requires
        v.rows_wf(),
        forall|i: int|
            0 <= i < v.very_large.len() ==> StackView::empty(block, 4096).apart(
                #[trigger] v.very_large.stacks[i],
            ),
        v.very_large.holds(q, t),
    ensures
        !overlap(q, t, block, 262144),
{
    assert(v.row(Bucket::VeryLarge).wf(Bucket::VeryLarge.chunk()));
    lemma_held_inside(v.very_large, 4096, q, t);
    let i = v.very_large.owner(q);
    assert(StackView::empty(block, 4096).apart(v.very_large.stacks[i]));
}

/// What the metadata chain hands out has no byte in common with a block
/// that lies apart from the stacks of the very large chain.
pub proof fn lemma_metadata_outside_block(v: BucketsView, block: int, q: int, t: int)
    requires
        v.inv(),
        forall|i: int|
            0 <= i < v.very_large.len() ==> StackView::empty(block, 4096).apart(
                #[trigger] v.very_large.stacks[i],
            ),
        v.metadata.holds(q, t),
    ensures
        !overlap(q, t, block, 262144),
{
    assert(v.row(Bucket::Metadata).wf(Bucket::Metadata.chunk()));
    lemma_held_inside(v.metadata, 64, q, t);
    let i = v.metadata.owner(q);
    assert(v.has(Bucket::Metadata, i));
    let stack = v.row(Bucket::Metadata).stacks[i];
    assert(v.row(Bucket::Metadata.parent().unwrap()).holds(stack.base, 4096));
    lemma_outside_block(v, block, stack.base, 4096);
}

/// A new node at the head of the metadata chain, with its own metadata in
/// the first chunk of its stack, keeps the invariant, where its stack was
/// held outside the chains before.
pub proof fn lemma_step_pushed_metadata(v: BucketsView, mem: int)
    requires
        v.inv(),
        StackView::valid_geometry(mem, 64),
        v.free_held(Bucket::VeryLarge, mem, 4096),
    ensures
        v.with_row(Bucket::Metadata, v.metadata.pushed(metadata_head(mem), mem)).inv(),
        v.kept_but(
            v.with_row(Bucket::Metadata, v.metadata.pushed(metadata_head(mem), mem)),
            Bucket::VeryLarge,
            mem,
            4096,
        ),
{
    let k = Bucket::Metadata;
    let r = v.row(k);
    let head = metadata_head(mem);
    let r2 = r.pushed(head, mem);
    let w = v.with_row(k, r2);
    lemma_metadata_heads(mem);
    assert(r.wf(k.chunk()));
    lemma_pushed_nodes(v, k, head, mem);
    assert forall|i: int| 0 <= i < r.stacks.len() implies head.apart(#[trigger] r.stacks[i]) by {
        assert(v.has(k, i));
        assert(!overlap(mem, 4096, v.base(k, i), k.stack_bytes()));
    }
    lemma_pushed_rows_wf(v, k, head, mem);
    lemma_pushed_row(r, k.chunk(), head, mem);
    assert forall|p: Bucket, q: int, t: int| #[trigger] v.row(p).holds(q, t) implies w.row(
        p,
    ).holds(q, t) by {
        if p == k {
            assert(held(r.stacks, q, t));
        }
    }
    lemma_hosts_kept(v, v, w);
    lemma_pushed_hosted(v, w, k, head, mem);
    assert forall|q: int, t: int| #[trigger] v.metadata.holds(q, t) implies w.metadata.holds(
        q,
        t,
    ) by {
        assert(held(r.stacks, q, t));
    }
    lemma_meta_kept(v, v.metadata, w.metadata);
    assert(w.metadata.holds(mem, 64));
    lemma_pushed_headed(v, w.metadata, k, head, mem);
    // the metadata of the old nodes lies in old stacks of the metadata chain
    assert forall|l: Bucket, j: int|
        #![trigger v.row(l).headers[j]]
        v.has(l, j) implies !overlap(v.header(l, j), 64, mem, 4096) by {
        let h = v.header(l, j);
        assert(v.metadata.holds(h, 64));
        lemma_held_inside(r, 64, h, 64);
        let o = r.owner(h);
        assert(head.apart(r.stacks[o]));
    }
    lemma_pushed_distinct(v, k, head, mem);
    assert forall|l: Bucket, j: int|
        #![trigger v.row(l).stacks[j]]
        v.has(l, j) && l != k && l.parent() == k.parent() implies head.apart(
        v.row(l).stacks[j],
    ) by {
        assert(v.row(l).wf(l.chunk()));
        assert(!overlap(mem, 4096, v.base(l, j), l.stack_bytes()));
    }
    lemma_pushed_siblings(v, k, head, mem);
    lemma_pushed_self_hosted(v, k, head, mem);
    lemma_pushed_nonnull(v, k, head, mem);
    assert forall|l: Bucket, q: int, t: int| #[trigger]
        v.free_held(l, q, t) && !(l == Bucket::VeryLarge && overlap(mem, 4096, q, t))
        implies w.free_held(l, q, t) by {
        assert(v.row(l).holds(q, t));
        if l == Bucket::Metadata {
            lemma_held_inside(r, 64, q, t);
            let o = r.owner(q);
            assert(head.apart(r.stacks[o]));
        }
        lemma_pushed_clear(v, k, head, mem, l, q, t);
    }
}

/// Taking up a block that lies apart from the stacks of the very large
/// chain, with a new metadata node in its first chunk, keeps the invariant
/// and all that is held outside the chains.
pub proof fn lemma_step_bootstrap(v: BucketsView, block: int)
    requires
        v.inv(),
        StackView::valid_geometry(block, 4096),
        block > 0,
        forall|i: int|
            0 <= i < v.very_large.len() ==> StackView::empty(block, 4096).apart(
                #[trigger] v.very_large.stacks[i],
            ),
    ensures
        v.bootstrapped(block).inv(),
        v.kept_in(v.bootstrapped(block)),
{
    let vl = Bucket::VeryLarge;
    let md = Bucket::Metadata;
    let n = very_large_head(block);
    let m = metadata_head_shared(block);
    let hn = block + 64;
    let hm = block;
    let w1 = v.with_row(vl, v.very_large.pushed(n, hn));
    let w = w1.with_row(md, w1.metadata.pushed(m, hm));
    lemma_very_large_head(block);
    lemma_metadata_heads(block);
    assert(v.row(vl).wf(vl.chunk()));
    assert(v.row(md).wf(md.chunk()));
    assert(w1.metadata == v.metadata);
    assert(w == v.bootstrapped(block));
    lemma_pushed_nodes(v, vl, n, hn);
    lemma_pushed_nodes(w1, md, m, hm);
    // the new very large node
    lemma_pushed_rows_wf(v, vl, n, hn);
    // the stacks of the old metadata nodes lie outside the block
    assert forall|i: int| 0 <= i < v.metadata.stacks.len() implies m.apart(
        #[trigger] v.metadata.stacks[i],
    ) by {
        assert(v.has(md, i));
        assert(v.row(md.parent().unwrap()).holds(v.base(md, i), 4096));
        lemma_outside_block(v, block, v.base(md, i), 4096);
    }
    lemma_pushed_rows_wf(w1, md, m, hm);
    lemma_pushed_row(v.very_large, 4096, n, hn);
    lemma_pushed_row(v.metadata, 64, m, hm);
    assert forall|p: Bucket, q: int, t: int| #[trigger] v.row(p).holds(q, t) implies w.row(
        p,
    ).holds(q, t) by {
        if p == vl {
            assert(held(v.very_large.stacks, q, t));
        }
        if p == md {
            assert(held(v.metadata.stacks, q, t));
        }
    }
    lemma_hosts_kept(v, v, w);
    lemma_pushed_hosted(v, w, vl, n, hn);
    assert(w.row(vl).holds(block, 4096));
    lemma_pushed_hosted(w1, w, md, m, hm);
    assert forall|q: int, t: int| #[trigger] v.metadata.holds(q, t) implies w.metadata.holds(
        q,
        t,
    ) by {
        assert(held(v.metadata.stacks, q, t));
    }
    lemma_meta_kept(v, v.metadata, w.metadata);
    assert(w.metadata.holds(hn, 64));
    assert(w.metadata.holds(hm, 64));
    lemma_pushed_headed(v, w.metadata, vl, n, hn);
    lemma_pushed_headed(w1, w.metadata, md, m, hm);
    assert forall|l: Bucket, j: int|
        #![trigger v.row(l).headers[j]]
        v.has(l, j) implies !overlap(v.header(l, j), 64, block, 262144) by {
        assert(v.metadata.holds(v.header(l, j), 64));
        lemma_metadata_outside_block(v, block, v.header(l, j), 64);
    }
    lemma_pushed_distinct(v, vl, n, hn);
    assert forall|l: Bucket, j: int|
        #![trigger w1.row(l).headers[j]]
        w1.has(l, j) implies w1.header(l, j) != hm by {
        if l == vl && j > 0 {
            assert(w1.row(l).headers[j] == v.row(l).headers[j - 1]);
            assert(v.has(l, j - 1));
        } else if l != vl {
            assert(w1.row(l).headers[j] == v.row(l).headers[j]);
            assert(v.has(l, j));
        }
    }
    lemma_pushed_distinct(w1, md, m, hm);
    lemma_pushed_siblings(v, vl, n, hn);
    assert forall|l: Bucket, j: int|
        #![trigger w1.row(l).stacks[j]]
        w1.has(l, j) && l != md && l.parent() == md.parent() implies m.apart(
        w1.row(l).stacks[j],
    ) by {
        assert(w1.row(l) == v.row(l));
        assert(v.has(l, j));
        assert(v.row(l).wf(l.chunk()));
        assert(v.row(l.parent().unwrap()).holds(v.base(l, j), l.stack_bytes()));
        lemma_outside_block(v, block, v.base(l, j), l.stack_bytes());
    }
    lemma_pushed_siblings(w1, md, m, hm);
    lemma_pushed_self_hosted(v, vl, n, hn);
    lemma_pushed_self_hosted(w1, md, m, hm);
    lemma_pushed_nonnull(v, vl, n, hn);
    lemma_pushed_nonnull(w1, md, m, hm);
    assert forall|l: Bucket, q: int, t: int| #[trigger] v.free_held(l, q, t) implies w.free_held(
        l,
        q,
        t,
    ) by {
        assert(v.row(l).holds(q, t));
        if l == md {
            lemma_metadata_outside_block(v, block, q, t);
        }
        if l == vl {
            lemma_outside_block(v, block, q, t);
        }
        lemma_pushed_clear(v, vl, n, hn, l, q, t);
        lemma_pushed_clear(w1, md, m, hm, l, q, t);
    }
}

// ---------------------------------------------------------------------
// A node is cut out of a chain.
// ---------------------------------------------------------------------

/// The nodes of the chains after node `j` was cut out of chain `k`.
pub proof fn lemma_removed_nodes(v: BucketsView, k: Bucket, j: int)
    requires
        v.row(k).headers.len() == v.row(k).stacks.len(),
        0 <= j < v.row(k).len(),
    ensures
        ({
            let w = v.with_row(k, v.row(k).removed(j));
            &&& w.row(k).len() == v.row(k).len() - 1
            &&& forall|i: int|
                0 <= i < j ==> #[trigger] w.row(k).stacks[i] == v.row(k).stacks[i]
            &&& forall|i: int|
                j <= i < v.row(k).len() - 1 ==> #[trigger] w.row(k).stacks[i] == v.row(k).stacks[i
                    + 1]
            &&& forall|i: int|
                0 <= i < j ==> #[trigger] w.row(k).headers[i] == v.row(k).headers[i]
            &&& forall|i: int|
                j <= i < v.row(k).len() - 1 ==> #[trigger] w.row(k).headers[i]
                    == v.row(k).headers[i + 1]
            &&& forall|l: Bucket| l != k ==> #[trigger] w.row(l) == v.row(l)
            &&& w.metadata == w.row(Bucket::Metadata)
        }),
{
}

/// A well-formed chain is well formed without one of its nodes.
pub proof fn lemma_removed_row(row: Row, chunk: int, j: int)
    requires
        row.wf(chunk),
        0 <= j < row.len(),
    ensures
        row.removed(j).wf(chunk),
{
    let r2 = row.removed(j);
    lemma_apart_remove(row.stacks, j);
    assert forall|i: int| #![trigger r2.stacks[i]] 0 <= i < r2.stacks.len() implies {
        &&& r2.stacks[i].wf()
        &&& r2.stacks[i].chunk == chunk
        &&& r2.spaces[i] == 64 - r2.stacks[i].height
    } by {
        if i < j {
            assert(r2.stacks[i] == row.stacks[i]);
        } else {
            assert(r2.stacks[i] == row.stacks[i + 1]);
        }
    }
}

/// What holds of the stacks and the metadata of all nodes holds of those
/// that are left after a node was cut out of a chain: they are handed out
/// by the chains that handed them out, no two have their metadata at the
/// same address, the stacks of chains with the same parent lie apart, and
/// the metadata of the nodes of the metadata chain lies in their own
/// stacks.
pub proof fn lemma_removed_rest(
    v: BucketsView,
    hosts: BucketsView,
    meta: Row,
    k: Bucket,
    j: int,
)
    requires
        v.row(k).headers.len() == v.row(k).stacks.len(),
        0 <= j < v.row(k).len(),
    ensures
        v.hosted_by(hosts) ==> v.with_row(k, v.row(k).removed(j)).hosted_by(hosts),
        v.headed_by(meta) ==> v.with_row(k, v.row(k).removed(j)).headed_by(meta),
        v.headers_distinct() ==> v.with_row(k, v.row(k).removed(j)).headers_distinct(),
        v.siblings_apart() ==> v.with_row(k, v.row(k).removed(j)).siblings_apart(),
        v.self_hosted() ==> v.with_row(k, v.row(k).removed(j)).self_hosted(),
        v.blocks_nonnull() ==> v.with_row(k, v.row(k).removed(j)).blocks_nonnull(),
{
    let w = v.with_row(k, v.row(k).removed(j));
    lemma_removed_nodes(v, k, j);
    if v.hosted_by(hosts) {
        assert forall|l: Bucket, i: int|
            #![trigger w.row(l).stacks[i]]
            w.has(l, i) && l.parent() is Some implies hosts.row(l.parent().unwrap()).holds(
            w.base(l, i),
            l.stack_bytes(),
        ) by {
            let i0 = if l == k && i >= j {
                i + 1
            } else {
                i
            };
            assert(w.row(l).stacks[i] == v.row(l).stacks[i0]);
            assert(v.has(l, i0));
        }
    }
    if v.headed_by(meta) {
        assert forall|l: Bucket, i: int| #![trigger w.row(l).headers[i]] w.has(l, i) implies meta.holds(
            w.header(l, i),
            64,
        ) by {
            let i0 = if l == k && i >= j {
                i + 1
            } else {
                i
            };
            assert(w.row(l).headers[i] == v.row(l).headers[i0]);
            assert(v.has(l, i0));
        }
    }
    if v.headers_distinct() {
        assert forall|l: Bucket, i: int, m: Bucket, n: int|
            #![trigger w.row(l).headers[i], w.row(m).headers[n]]
            w.has(l, i) && w.has(m, n) && (l != m || i != n) implies w.header(l, i) != w.header(
            m,
            n,
        ) by {
            let i0 = if l == k && i >= j {
                i + 1
            } else {
                i
            };
            let n0 = if m == k && n >= j {
                n + 1
            } else {
                n
            };
            assert(w.row(l).headers[i] == v.row(l).headers[i0]);
            assert(w.row(m).headers[n] == v.row(m).headers[n0]);
            assert(v.has(l, i0) && v.has(m, n0));
        }
    }
    if v.siblings_apart() {
        assert forall|l: Bucket, i: int, m: Bucket, n: int|
            #![trigger w.row(l).stacks[i], w.row(m).stacks[n]]
            w.has(l, i) && w.has(m, n) && l != m && l.parent() == m.parent() implies w.row(
            l,
        ).stacks[i].apart(w.row(m).stacks[n]) by {
            let i0 = if l == k && i >= j {
                i + 1
            } else {
                i
            };
            let n0 = if m == k && n >= j {
                n + 1
            } else {
                n
            };
            assert(w.row(l).stacks[i] == v.row(l).stacks[i0]);
            assert(w.row(m).stacks[n] == v.row(m).stacks[n0]);
            assert(v.has(l, i0) && v.has(m, n0));
        }
    }
    if v.self_hosted() {
        assert forall|i: int|
            #![trigger w.metadata.stacks[i]]
            0 <= i < w.metadata.len() implies w.metadata.stacks[i].owns(w.metadata.headers[i]) by {
            let i0 = if k == Bucket::Metadata && i >= j {
                i + 1
            } else {
                i
            };
            assert(w.metadata.stacks[i] == v.metadata.stacks[i0]);
            assert(w.metadata.headers[i] == v.metadata.headers[i0]);
            assert(v.metadata.stacks[i0].owns(v.metadata.headers[i0]));
        }
    }
    if v.blocks_nonnull() {
        assert forall|i: int|
            #![trigger w.very_large.stacks[i]]
            0 <= i < w.very_large.len() implies w.very_large.stacks[i].base > 0 by {
            let i0 = if k == Bucket::VeryLarge && i >= j {
                i + 1
            } else {
                i
            };
            assert(w.row(Bucket::VeryLarge).stacks[i] == v.row(Bucket::VeryLarge).stacks[i0]);
            assert(v.very_large.stacks[i0].base > 0);
        }
    }
}

/// Bytes that have nothing in common with the stack or the metadata of a
/// node still have not after a node was cut out of a chain.
pub proof fn lemma_removed_clear(v: BucketsView, k: Bucket, j: int, l: Bucket, q: int, t: int)
    requires
        v.row(k).headers.len() == v.row(k).stacks.len(),
        0 <= j < v.row(k).len(),
        v.clear_of(l, q, t),
    ensures
        v.with_row(k, v.row(k).removed(j)).clear_of(l, q, t),
{
    let w = v.with_row(k, v.row(k).removed(j));
    lemma_removed_nodes(v, k, j);
    assert forall|m: Bucket, i: int|
        #![trigger w.row(m).stacks[i]]
        w.has(m, i) && m.parent() == Some(l) implies !overlap(
        q,
        t,
        w.base(m, i),
        m.stack_bytes(),
    ) by {
        let i0 = if m == k && i >= j {
            i + 1
        } else {
            i
        };
        assert(w.row(m).stacks[i] == v.row(m).stacks[i0]);
        assert(v.has(m, i0));
    }
    if l == Bucket::Metadata {
        assert forall|m: Bucket, i: int| #![trigger w.row(m).headers[i]] w.has(m, i) implies !overlap(
            q,
            t,
            w.header(m, i),
            64,
        ) by {
            let i0 = if m == k && i >= j {
                i + 1
            } else {
                i
            };
            assert(w.row(m).headers[i] == v.row(m).headers[i0]);
            assert(v.has(m, i0));
        }
    }
}

/// Giving back what is held outside the chains never empties a node of the
/// metadata chain: the node's own metadata stays in its stack.
pub proof fn lemma_metadata_never_drains(v: BucketsView, ptr: int, size: int)
    requires
        v.inv(),
        v.free_held(Bucket::Metadata, ptr, size),
    ensures
        v.metadata.stacks[v.metadata.owner(ptr)].deallocated(ptr, size).height != 0,
{
    let r = v.row(Bucket::Metadata);
    assert(r.wf(64));
    lemma_held_inside(r, 64, ptr, size);
    let j = r.owner(ptr);
    let stack = r.stacks[j];
    let h = r.headers[j];
    assert(v.has(Bucket::Metadata, j));
    assert(v.metadata.stacks[j].owns(v.metadata.headers[j]));
    assert(v.metadata.holds(v.header(Bucket::Metadata, j), 64));
    lemma_row_all_wf(r, 64);
    lemma_owner_unique(r.stacks, 64, j, h);
    assert(stack.holds(h, 64));
    assert(!overlap(ptr, size, h, 64));
    lemma_chunks_and_bytes(stack, ptr, size, h, 64);
    lemma_holds(stack, h, 64);
    let after = stack.deallocated(ptr, size);
    assert(stack.chunks_at(h, 64).contains(stack.chunk_of(h)));
    assert(after.used.contains(stack.chunk_of(h)));
    lemma_deallocated(stack, ptr, size);
    crate::bits::lemma_top_below(after.used, 64);
}

/// Two chunks of the metadata chain at different addresses have no byte in
/// common.
pub proof fn lemma_headers_apart(row: Row, g: int, h: int)
    requires
        row.wf(64),
        row.holds(g, 64),
        row.holds(h, 64),
        g != h,
    ensures
        !overlap(g, 64, h, 64),
{
    lemma_held_inside(row, 64, g, 64);
    lemma_held_inside(row, 64, h, 64);
    let i = row.owner(g);
    let j = row.owner(h);
    assert(row.stacks[i].wf() && row.stacks[j].wf());
    let a = row.stacks[i].base;
    let b = row.stacks[j].base;
    assert(g % 64 == 0) by {
        vstd::arithmetic::div_mod::lemma_mod_adds(a, g - a, 64);
    }
    assert(h % 64 == 0) by {
        vstd::arithmetic::div_mod::lemma_mod_adds(b, h - b, 64);
    }
}

/// What a chain hands out to the nodes of the chains it still does after
/// an allocation that is held outside the chains was taken back from it.
pub proof fn lemma_deallocated_claims(v: BucketsView, k: Bucket, ptr: int, size: int)
    requires
        v.inv(),
        v.free_held(k, ptr, size),
    ensures
        0 <= v.row(k).owner(ptr) < v.row(k).len(),
        v.row(k).deallocated(ptr, size).wf(k.chunk()),
        !v.row(k).collapses(ptr, size) ==> v.row(k).same_places(v.row(k).deallocated(ptr, size)),
        forall|q: int, t: int| #[trigger]
            v.row(k).holds(q, t) && !overlap(ptr, size, q, t) ==> v.row(k).deallocated(
                ptr,
                size,
            ).holds(q, t),
        forall|l: Bucket, i: int|
            #![trigger v.row(l).stacks[i]]
            v.has(l, i) && l.parent() == Some(k) ==> v.row(k).deallocated(ptr, size).holds(
                v.base(l, i),
                l.stack_bytes(),
            ),
        k == Bucket::Metadata ==> forall|l: Bucket, i: int|
            #![trigger v.row(l).headers[i]]
            v.has(l, i) ==> v.row(k).deallocated(ptr, size).holds(v.header(l, i), 64),
{
    let r = v.row(k);
    let r2 = r.deallocated(ptr, size);
    let j = r.owner(ptr);
    assert(r.wf(k.chunk()));
    lemma_held_inside(r, k.chunk(), ptr, size);
    lemma_row_chain(r, k.chunk());
    lemma_deallocated_frame(r.chain(), ptr, size);
    assert(r2.stacks == r.chain().deallocated(ptr, size).stacks);
    assert forall|q: int, t: int| #[trigger]
        v.row(k).holds(q, t) && !overlap(ptr, size, q, t) implies r2.holds(q, t) by {
        assert(held(r.stacks, q, t));
    }
    assert forall|l: Bucket, i: int|
        #![trigger v.row(l).stacks[i]]
        v.has(l, i) && l.parent() == Some(k) implies r2.holds(v.base(l, i), l.stack_bytes()) by {
        assert(v.row(k).holds(v.base(l, i), l.stack_bytes()));
        assert(!overlap(ptr, size, v.base(l, i), l.stack_bytes()));
    }
    if k == Bucket::Metadata {
        assert forall|l: Bucket, i: int| #![trigger v.row(l).headers[i]] v.has(l, i) implies r2.holds(
            v.header(l, i),
            64,
        ) by {
            assert(v.metadata.holds(v.header(l, i), 64));
            assert(!overlap(ptr, size, v.header(l, i), 64));
        }
    }
    if r.collapses(ptr, size) {
        lemma_removed_row(r, k.chunk(), j);
    } else {
        let c2 = r.chain().deallocated(ptr, size);
        assert forall|i: int| #![trigger r2.stacks[i]] 0 <= i < r2.stacks.len() implies {
            &&& r2.stacks[i].wf()
            &&& r2.stacks[i].chunk == k.chunk()
            &&& r2.spaces[i] == 64 - r2.stacks[i].height
        } by {
            assert(c2.stacks[i].wf());
            assert(c2.stacks[0].chunk == r.stacks[0].chunk);
            assert(r2.spaces[i] == c2.spaces[i]);
        }
        assert(r.same_places(r2));
    }
}

/// Taking back an allocation that is held outside the chains, where no
/// node leaves its chain, keeps the invariant and all else that is held
/// outside the chains.
pub proof fn lemma_step_deallocated_plain(v: BucketsView, k: Bucket, ptr: int, size: int)
    requires
        v.inv(),
        v.free_held(k, ptr, size),
        !v.row(k).collapses(ptr, size),
    ensures
        v.with_row(k, v.row(k).deallocated(ptr, size)).inv(),
        v.kept_but(v.with_row(k, v.row(k).deallocated(ptr, size)), k, ptr, size),
{
    let r = v.row(k);
    let r2 = r.deallocated(ptr, size);
    let w = v.with_row(k, r2);
    lemma_deallocated_claims(v, k, ptr, size);
    lemma_replace_row(v, k, r2);
    assert forall|l: Bucket, q: int, t: int| #[trigger]
        v.free_held(l, q, t) && !(l == k && overlap(ptr, size, q, t)) implies w.free_held(
        l,
        q,
        t,
    ) by {
        if l == k {
            assert(v.row(k).holds(q, t));
        }
        lemma_replace_row_kept(v, k, r2, l, q, t);
    }
}

/// Taking back an allocation that is held outside the chains, where that
/// empties a node which then leaves its chain, keeps the invariant and all
/// else that is held outside the chains.
pub proof fn lemma_step_deallocated_collapse(v: BucketsView, k: Bucket, ptr: int, size: int)
    requires
        v.inv(),
        v.free_held(k, ptr, size),
        v.row(k).collapses(ptr, size),
        k != Bucket::Metadata,
    ensures
        v.with_row(k, v.row(k).deallocated(ptr, size)).inv(),
        v.kept_but(v.with_row(k, v.row(k).deallocated(ptr, size)), k, ptr, size),
{
    let r = v.row(k);
    let r2 = r.deallocated(ptr, size);
    let w = v.with_row(k, r2);
    let j = r.owner(ptr);
    lemma_deallocated_claims(v, k, ptr, size);
    lemma_with_row(v, k, r2);
    assert(r.wf(k.chunk()));
    lemma_removed_nodes(v, k, j);
    assert(w.rows_wf()) by {
        assert forall|l: Bucket| #[trigger] w.row(l).wf(l.chunk()) by {
            assert(v.row(l).wf(l.chunk()));
        }
    }
    assert(v.hosted_by(w)) by {
        assert forall|l: Bucket, i: int|
            #![trigger v.row(l).stacks[i]]
            v.has(l, i) && l.parent() is Some implies w.row(l.parent().unwrap()).holds(
            v.base(l, i),
            l.stack_bytes(),
        ) by {
            assert(v.row(l.parent().unwrap()).holds(v.base(l, i), l.stack_bytes()));
        }
    }
    lemma_removed_rest(v, w, v.metadata, k, j);
    assert(w.metadata == v.metadata);
    assert forall|l: Bucket, q: int, t: int| #[trigger]
        v.free_held(l, q, t) && !(l == k && overlap(ptr, size, q, t)) implies w.free_held(
        l,
        q,
        t,
    ) by {
        if l == k {
            assert(v.row(k).holds(q, t));
        }
        lemma_removed_clear(v, k, j, l, q, t);
    }
}

/// The stack of a node is held outside the chains once the node has left
/// its chain.
pub proof fn lemma_released_stack(v: BucketsView, k: Bucket, j: int)
    requires
        v.inv(),
        v.has(k, j),
        k.parent() is Some,
    ensures
        v.with_row(k, v.row(k).removed(j)).free_held(
            k.parent().unwrap(),
            v.row(k).stacks[j].base,
            k.stack_bytes(),
        ),
{
    let r = v.row(k);
    let w = v.with_row(k, r.removed(j));
    let p = k.parent().unwrap();
    let b = r.stacks[j].base;
    assert(r.wf(k.chunk()));
    lemma_removed_nodes(v, k, j);
    assert(v.row(p).holds(v.base(k, j), k.stack_bytes()));
    assert(w.row(p) == v.row(p));
    assert forall|m: Bucket, i: int|
        #![trigger w.row(m).stacks[i]]
        w.has(m, i) && m.parent() == Some(p) implies !overlap(
        b,
        k.stack_bytes(),
        w.base(m, i),
        m.stack_bytes(),
    ) by {
        let i0 = if m == k && i >= j {
            i + 1
        } else {
            i
        };
        assert(w.row(m).stacks[i] == v.row(m).stacks[i0]);
        assert(v.has(m, i0));
        assert(v.row(m).wf(m.chunk()));
        if m == k {
            if i0 < j {
                assert(r.stacks[i0].apart(r.stacks[j]));
            } else {
                assert(r.stacks[j].apart(r.stacks[i0]));
            }
        } else {
            assert(v.row(m).stacks[i0].apart(v.row(k).stacks[j]));
        }
    }
}

/// The metadata of a node is held outside the chains once the node has
/// left its chain.
pub proof fn lemma_released_header(v: BucketsView, k: Bucket, j: int)
    requires
        v.inv(),
        v.has(k, j),
        k != Bucket::Metadata,
    ensures
        v.with_row(k, v.row(k).removed(j)).free_held(Bucket::Metadata, v.row(k).headers[j], 64),
{
    let r = v.row(k);
    let w = v.with_row(k, r.removed(j));
    let h = r.headers[j];
    assert(r.wf(k.chunk()));
    lemma_removed_nodes(v, k, j);
    assert(v.metadata.holds(v.header(k, j), 64));
    assert(w.row(Bucket::Metadata) == v.row(Bucket::Metadata));
    assert(v.row(Bucket::Metadata).wf(Bucket::Metadata.chunk()));
    assert forall|m: Bucket, i: int| #![trigger w.row(m).headers[i]] w.has(m, i) implies !overlap(
        h,
        64,
        w.header(m, i),
        64,
    ) by {
        let i0 = if m == k && i >= j {
            i + 1
        } else {
            i
        };
        assert(w.row(m).headers[i] == v.row(m).headers[i0]);
        assert(v.has(m, i0));
        assert(v.metadata.holds(v.header(m, i0), 64));
        assert(v.header(m, i0) != v.header(k, j));
        lemma_headers_apart(v.metadata, h, v.header(m, i0));
    }
}

/// Taking back an allocation that is held outside the chains keeps the
/// invariant, and all else that is held outside the chains. Where that
/// empties a node that is not the head of its chain, the node is cut out,
/// and its stack and its metadata are held outside the chains afterwards.
/// No node of the metadata chain is emptied.
pub proof fn lemma_step_deallocated(v: BucketsView, k: Bucket, ptr: int, size: int)
    requires
        v.inv(),
        v.free_held(k, ptr, size),
    ensures
        v.with_row(k, v.row(k).deallocated(ptr, size)).inv(),
        v.kept_but(v.with_row(k, v.row(k).deallocated(ptr, size)), k, ptr, size),
        0 <= v.row(k).owner(ptr) < v.row(k).len(),
        k == Bucket::Metadata ==> v.row(k).stacks[v.row(k).owner(ptr)].deallocated(
            ptr,
            size,
        ).height != 0,
        v.row(k).collapses(ptr, size) ==> {
            let w = v.with_row(k, v.row(k).deallocated(ptr, size));
            let j = v.row(k).owner(ptr);
            &&& k != Bucket::Metadata
            &&& k.parent() matches Some(p) ==> w.free_held(
                p,
                v.row(k).stacks[j].base,
                k.stack_bytes(),
            )
            &&& w.free_held(Bucket::Metadata, v.row(k).headers[j], 64)
        },
{
    let j = v.row(k).owner(ptr);
    lemma_deallocated_claims(v, k, ptr, size);
    if k == Bucket::Metadata {
        lemma_metadata_never_drains(v, ptr, size);
    }
    if v.row(k).collapses(ptr, size) {
        lemma_step_deallocated_collapse(v, k, ptr, size);
        if k.parent() is Some {
            lemma_released_stack(v, k, j);
        }
        lemma_released_header(v, k, j);
    } else {
        lemma_step_deallocated_plain(v, k, ptr, size);
    }
}

// ---------------------------------------------------------------------
// Allocations of different chains.
// ---------------------------------------------------------------------

/// What a chain hands out lies in the stack of the node that owns it, and
/// that stack is handed out by the parent chain.
pub proof fn lemma_enclosed(v: BucketsView, k: Bucket, q: int, t: int)
    requires
        v.inv(),
        v.row(k).holds(q, t),
    ensures
        v.has(k, v.row(k).owner(q)),
        v.base(k, v.row(k).owner(q)) <= q,
        q + t <= v.base(k, v.row(k).owner(q)) + k.stack_bytes(),
        t > 0,
        k.parent() matches Some(p) ==> v.row(p).holds(
            v.base(k, v.row(k).owner(q)),
            k.stack_bytes(),
        ),
{
    assert(v.row(k).wf(k.chunk()));
    lemma_held_inside(v.row(k), k.chunk(), q, t);
    let i = v.row(k).owner(q);
    assert(v.row(k).stacks[i].wf());
}

/// Two allocations of different chains that are both held outside the
/// chains have no byte in common.
pub proof fn lemma_buckets_apart(
    v: BucketsView,
    k: Bucket,
    p: int,
    s: int,
    l: Bucket,
    q: int,
    t: int,
)
    requires
        v.inv(),
        v.free_held(k, p, s),
        v.free_held(l, q, t),
        k != l,
    ensures
        !overlap(p, s, q, t),
{
    lemma_enclosed(v, k, p, s);
    lemma_enclosed(v, l, q, t);
    let i = v.row(k).owner(p);
    let j = v.row(l).owner(q);
    let a = v.base(k, i);
    let b = v.base(l, j);
    assert(v.row(k).wf(k.chunk()) && v.row(l).wf(l.chunk()));
    assert(v.row(k).stacks[i].wf() && v.row(l).stacks[j].wf());
    if l.parent() == Some(k) {
        // the second lies in a stack that the chain of the first hands out
        assert(!overlap(p, s, v.base(l, j), l.stack_bytes()));
    } else if k.parent() == Some(l) {
        assert(!overlap(q, t, v.base(k, i), k.stack_bytes()));
    } else if k.parent() == l.parent() {
        // the two lie in stacks of chains with the same parent
        assert(v.row(k).stacks[i].apart(v.row(l).stacks[j]));
    } else if k.parent() is Some && l.parent() is Some {
        let m = k.parent().unwrap();
        let n = l.parent().unwrap();
        lemma_enclosed(v, m, a, k.stack_bytes());
        lemma_enclosed(v, n, b, l.stack_bytes());
        let i2 = v.row(m).owner(a);
        let j2 = v.row(n).owner(b);
        assert(v.row(m).wf(m.chunk()) && v.row(n).wf(n.chunk()));
        assert(v.row(m).stacks[i2].wf() && v.row(n).stacks[j2].wf());
        if m.parent() == Some(l) {
            assert(!overlap(q, t, v.base(m, i2), m.stack_bytes()));
        } else if n.parent() == Some(k) {
            assert(!overlap(p, s, v.base(n, j2), n.stack_bytes()));
        } else if m.parent() == l.parent() {
            assert(v.row(m).stacks[i2].apart(v.row(l).stacks[j]));
        } else if n.parent() == k.parent() {
            assert(v.row(k).stacks[i].apart(v.row(n).stacks[j2]));
        } else {
            assert(m != n);
            assert(v.row(m).stacks[i2].apart(v.row(n).stacks[j2]));
        }
    } else if k.parent() is Some {
        // the second is of the very large chain
        let m = k.parent().unwrap();
        lemma_enclosed(v, m, a, k.stack_bytes());
        let i2 = v.row(m).owner(a);
        assert(!overlap(q, t, v.base(m, i2), m.stack_bytes()));
    } else {
        let n = l.parent().unwrap();
        lemma_enclosed(v, n, b, l.stack_bytes());
        let j2 = v.row(n).owner(b);
        assert(!overlap(p, s, v.base(n, j2), n.stack_bytes()));
    }
}

// ---------------------------------------------------------------------
// An allocation changes its size where it stands.
// ---------------------------------------------------------------------

/// Shrinking an allocation that is held outside the chains keeps the
/// invariant and all else that is held outside the chains; what is left of
/// the allocation is held outside the chains.
pub proof fn lemma_step_shrunk(v: BucketsView, k: Bucket, ptr: int, old_size: int, new_size: int)
    requires
        v.inv(),
        v.free_held(k, ptr, old_size),
        0 < new_size <= old_size,
    ensures
        v.with_row(k, v.row(k).shrunk(ptr, old_size, new_size)).inv(),
        v.kept_but(v.with_row(k, v.row(k).shrunk(ptr, old_size, new_size)), k, ptr, old_size),
        v.with_row(k, v.row(k).shrunk(ptr, old_size, new_size)).free_held(k, ptr, new_size),
        v.row(k).same_places(v.row(k).shrunk(ptr, old_size, new_size)),
{
    let r = v.row(k);
    let r2 = r.shrunk(ptr, old_size, new_size);
    let w = v.with_row(k, r2);
    assert(r.wf(k.chunk()));
    lemma_held_inside(r, k.chunk(), ptr, old_size);
    lemma_row_chain(r, k.chunk());
    lemma_shrunk_frame(r.chain(), ptr, old_size, new_size);
    let c2 = r.chain().shrunk(ptr, old_size, new_size);
    assert(r2.stacks == c2.stacks);
    assert(r2.wf(k.chunk())) by {
        assert forall|i: int| #![trigger r2.stacks[i]] 0 <= i < r2.stacks.len() implies {
            &&& r2.stacks[i].wf()
            &&& r2.stacks[i].chunk == k.chunk()
            &&& r2.spaces[i] == 64 - r2.stacks[i].height
        } by {
            assert(c2.stacks[i].wf());
            assert(c2.stacks[0].chunk == r.stacks[0].chunk);
            assert(r2.spaces[i] == c2.spaces[i]);
        }
    }
    assert(r.same_places(r2));
    lemma_with_row(v, k, r2);
    assert forall|l: Bucket, i: int|
        #![trigger v.row(l).stacks[i]]
        v.has(l, i) && l.parent() == Some(k) implies r2.holds(v.base(l, i), l.stack_bytes()) by {
        assert(v.row(k).holds(v.base(l, i), l.stack_bytes()));
        assert(held(r.stacks, v.base(l, i), l.stack_bytes()));
        assert(!overlap(ptr, old_size, v.base(l, i), l.stack_bytes()));
    }
    if k == Bucket::Metadata {
        assert forall|l: Bucket, i: int| #![trigger v.row(l).headers[i]] v.has(l, i) implies r2.holds(
            v.header(l, i),
            64,
        ) by {
            assert(v.metadata.holds(v.header(l, i), 64));
            assert(held(r.stacks, v.header(l, i), 64));
            assert(!overlap(ptr, old_size, v.header(l, i), 64));
        }
    }
    lemma_replace_row(v, k, r2);
    assert forall|l: Bucket, q: int, t: int| #[trigger]
        v.free_held(l, q, t) && !(l == k && overlap(ptr, old_size, q, t)) implies w.free_held(
        l,
        q,
        t,
    ) by {
        if l == k {
            assert(held(r.stacks, q, t));
        }
        lemma_replace_row_kept(v, k, r2, l, q, t);
    }
    assert(w.free_held(k, ptr, new_size)) by {
        assert(r2.holds(ptr, new_size));
        assert forall|l: Bucket, j: int|
            #![trigger w.row(l).stacks[j]]
            w.has(l, j) && l.parent() == Some(k) implies !overlap(
            ptr,
            new_size,
            w.base(l, j),
            l.stack_bytes(),
        ) by {
            assert(v.row(l).stacks[j].same_place(w.row(l).stacks[j]));
            assert(!overlap(ptr, old_size, v.base(l, j), l.stack_bytes()));
        }
        if k == Bucket::Metadata {
            assert forall|l: Bucket, j: int|
                #![trigger w.row(l).headers[j]]
                w.has(l, j) implies !overlap(ptr, new_size, w.header(l, j), 64) by {
                assert(v.row(l).stacks[j].same_place(w.row(l).stacks[j]));
                assert(!overlap(ptr, old_size, v.header(l, j), 64));
            }
        }
    }
}

/// Growing an allocation that is held outside the chains where it stands
/// keeps the invariant and all that is held outside the chains; the grown
/// allocation is held outside the chains, and has no byte in common with
/// anything else that its chain hands out.
pub proof fn lemma_step_grown(v: BucketsView, k: Bucket, ptr: int, old_size: int, new_size: int)
    requires
        v.inv(),
        v.free_held(k, ptr, old_size),
        old_size <= new_size,
        v.row(k).can_grow(ptr, old_size, new_size),
    ensures
        v.with_row(k, v.row(k).grown(ptr, old_size, new_size)).inv(),
        v.kept_in(v.with_row(k, v.row(k).grown(ptr, old_size, new_size))),
        v.with_row(k, v.row(k).grown(ptr, old_size, new_size)).free_held(k, ptr, new_size),
        forall|q: int, t: int| #[trigger]
            v.row(k).holds(q, t) && !overlap(ptr, old_size, q, t) ==> !overlap(
                ptr,
                new_size,
                q,
                t,
            ),
        v.row(k).same_places(v.row(k).grown(ptr, old_size, new_size)),
{
    let r = v.row(k);
    let r2 = r.grown(ptr, old_size, new_size);
    let w = v.with_row(k, r2);
    assert(r.wf(k.chunk()));
    lemma_held_inside(r, k.chunk(), ptr, old_size);
    lemma_row_chain(r, k.chunk());
    lemma_grown_frame(r.chain(), ptr, old_size, new_size);
    let c2 = r.chain().grown(ptr, old_size, new_size);
    assert(r2.stacks == c2.stacks);
    assert(r2.wf(k.chunk())) by {
        assert forall|i: int| #![trigger r2.stacks[i]] 0 <= i < r2.stacks.len() implies {
            &&& r2.stacks[i].wf()
            &&& r2.stacks[i].chunk == k.chunk()
            &&& r2.spaces[i] == 64 - r2.stacks[i].height
        } by {
            assert(c2.stacks[i].wf());
            assert(c2.stacks[0].chunk == r.stacks[0].chunk);
            assert(r2.spaces[i] == c2.spaces[i]);
        }
    }
    assert(r.same_places(r2));
    lemma_with_row(v, k, r2);
    assert forall|l: Bucket, i: int|
        #![trigger v.row(l).stacks[i]]
        v.has(l, i) && l.parent() == Some(k) implies r2.holds(v.base(l, i), l.stack_bytes()) by {
        assert(v.row(k).holds(v.base(l, i), l.stack_bytes()));
        assert(held(r.stacks, v.base(l, i), l.stack_bytes()));
    }
    if k == Bucket::Metadata {
        assert forall|l: Bucket, i: int| #![trigger v.row(l).headers[i]] v.has(l, i) implies r2.holds(
            v.header(l, i),
            64,
        ) by {
            assert(v.metadata.holds(v.header(l, i), 64));
            assert(held(r.stacks, v.header(l, i), 64));
        }
    }
    lemma_replace_row(v, k, r2);
    assert forall|l: Bucket, q: int, t: int| #[trigger] v.free_held(l, q, t) implies w.free_held(
        l,
        q,
        t,
    ) by {
        if l == k {
            assert(held(r.stacks, q, t));
        }
        lemma_replace_row_kept(v, k, r2, l, q, t);
    }
    assert forall|q: int, t: int| #[trigger]
        v.row(k).holds(q, t) && !overlap(ptr, old_size, q, t) implies !overlap(
        ptr,
        new_size,
        q,
        t,
    ) by {
        assert(held(r.stacks, q, t));
    }
    assert(w.free_held(k, ptr, new_size)) by {
        assert(r2.holds(ptr, new_size));
        assert forall|l: Bucket, j: int|
            #![trigger w.row(l).stacks[j]]
            w.has(l, j) && l.parent() == Some(k) implies !overlap(
            ptr,
            new_size,
            w.base(l, j),
            l.stack_bytes(),
        ) by {
            assert(v.row(l).stacks[j].same_place(w.row(l).stacks[j]));
            assert(v.row(k).holds(v.base(l, j), l.stack_bytes()));
            assert(!overlap(ptr, old_size, v.base(l, j), l.stack_bytes()));
        }
        if k == Bucket::Metadata {
            assert forall|l: Bucket, j: int|
                #![trigger w.row(l).headers[j]]
                w.has(l, j) implies !overlap(ptr, new_size, w.header(l, j), 64) by {
                assert(v.row(l).stacks[j].same_place(w.row(l).stacks[j]));
                assert(v.metadata.holds(v.header(l, j), 64));
                assert(!overlap(ptr, old_size, v.header(l, j), 64));
            }
        }
    }
}

/// Nothing that a chain hands out starts at the null address.
pub proof fn lemma_held_nonnull(v: BucketsView, k: Bucket, q: int, t: int)
    requires
        v.inv(),
        v.row(k).holds(q, t),
    ensures
        q > 0,
{
    lemma_enclosed(v, k, q, t);
    let i = v.row(k).owner(q);
    let a = v.base(k, i);
    if k.parent() is Some {
        let m = k.parent().unwrap();
        lemma_enclosed(v, m, a, k.stack_bytes());
        let i2 = v.row(m).owner(a);
        let b = v.base(m, i2);
        if m.parent() is Some {
            let n = m.parent().unwrap();
            lemma_enclosed(v, n, b, m.stack_bytes());
            let i3 = v.row(n).owner(b);
            assert(v.very_large.stacks[i3].base > 0);
        } else {
            assert(v.very_large.stacks[i2].base > 0);
        }
    } else {
        assert(v.very_large.stacks[i].base > 0);
    }
}

// ---------------------------------------------------------------------
// What a deallocation does to the chains.
// ---------------------------------------------------------------------

/// Taking an allocation back from a chain changes only that chain, the
/// chains that its stacks come from, and the metadata chain.
pub proof fn lemma_deallocated_rows(v: BucketsView, k: Bucket, ptr: int, size: int, l: Bucket)
    requires
        l != k,
        l != Bucket::Metadata,
        l.depth() > k.depth(),
    ensures
        v.deallocated(k, ptr, size).row(l) == v.row(l),
    decreases k.depth(),
{
    let row = v.row(k);
    let j = row.owner(ptr);
    let first = v.with_row(k, row.deallocated(ptr, size));
    lemma_with_row(v, k, row.deallocated(ptr, size));
    if row.collapses(ptr, size) {
        if k.parent() is Some {
            let p = k.parent().unwrap();
            lemma_deallocated_rows(first, p, row.stacks[j].base, k.stack_bytes(), l);
        }
    }
}

/// Where giving back an allocation empties a node that is not the head of
/// its chain, the chain is one node shorter afterwards; otherwise it keeps
/// its length.
pub proof fn lemma_collapse_shortens_row(v: BucketsView, k: Bucket, ptr: int, size: int)
    requires
        v.inv(),
        v.free_held(k, ptr, size),
        k != Bucket::Metadata,
    ensures
        v.deallocated(k, ptr, size).row(k) == v.row(k).deallocated(ptr, size),
        v.deallocated(k, ptr, size).row(k).len() == if v.row(k).collapses(ptr, size) {
            v.row(k).len() - 1
        } else {
            v.row(k).len()
        },
{
    let row = v.row(k);
    let j = row.owner(ptr);
    let first = v.with_row(k, row.deallocated(ptr, size));
    lemma_with_row(v, k, row.deallocated(ptr, size));
    assert(row.wf(k.chunk()));
    lemma_held_inside(row, k.chunk(), ptr, size);
    if row.collapses(ptr, size) {
        if k.parent() is Some {
            let p = k.parent().unwrap();
            lemma_deallocated_rows(first, p, row.stacks[j].base, k.stack_bytes(), k);
        }
    }
}

/// An allocation that a caller of the allocator holds lies in the stack of
/// exactly one node of the chain of its size's category: in the stack of
/// the node that owns its address, and with no byte in the stack of any
/// other node of the chain. Its address is not the null address, and it is
/// the address of a chunk of that stack.
pub proof fn lemma_in_one_node(v: BucketsView, ptr: int, size: int)
    requires
        v.inv(),
        v.user_held(ptr, size),
    ensures
        ({
            let k = crate::bucketed::category_of(size)->Some_0.bucket();
            let row = v.row(k);
            let j = row.owner(ptr);
            &&& 0 <= j < row.len()
            &&& row.stacks[j].holds(ptr, size)
            &&& 0 < row.stacks[j].base <= ptr
            &&& ptr + size <= row.stacks[j].base + 64 * k.chunk()
            &&& (ptr - row.stacks[j].base) % k.chunk() == 0
            &&& forall|i: int|
                0 <= i < row.len() && i != j ==> !overlap(
                    ptr,
                    size,
                    (#[trigger] row.stacks[i]).base,
                    64 * k.chunk(),
                )
        }),
{
    let k = crate::bucketed::category_of(size)->Some_0.bucket();
    let row = v.row(k);
    assert(row.wf(k.chunk()));
    lemma_held_inside(row, k.chunk(), ptr, size);
    let j = row.owner(ptr);
    assert(row.stacks[j].wf());
    lemma_enclosed(v, k, ptr, size);
    if k.parent() is Some {
        lemma_held_nonnull(v, k.parent().unwrap(), row.stacks[j].base, k.stack_bytes());
    } else {
        assert(v.very_large.stacks[j].base > 0);
    }
    assert forall|i: int| 0 <= i < row.len() && i != j implies !overlap(
        ptr,
        size,
        (#[trigger] row.stacks[i]).base,
        64 * k.chunk(),
    ) by {
        assert(row.stacks[i].wf());
        if i < j {
            assert(row.stacks[i].apart(row.stacks[j]));
        } else {
            assert(row.stacks[j].apart(row.stacks[i]));
        }
    }
}

/// A chain with a node put in front is the chain again once the head is
/// taken away.
pub proof fn lemma_pushed_removed(row: Row, head: StackView, header: int)
    requires
        row.spaces.len() == row.stacks.len(),
        row.headers.len() == row.stacks.len(),
    ensures
        row.pushed(head, header).removed(0) == row,
        row.pushed(head, header).len() == row.len() + 1,
{
    let r = row.pushed(head, header).removed(0);
    assert(r.stacks =~= row.stacks);
    assert(r.spaces =~= row.spaces);
    assert(r.headers =~= row.headers);
}

/// A chain that grew by a node, and whose old nodes have no room for a
/// request, serves the request from its new head or not at all; the nodes
/// behind the head stay as they are.
pub proof fn lemma_new_head_serves(old: Row, new: Row, chunk: int, size: int, align: int)
    requires
        new.wf(chunk),
        new.len() == old.len() + 1,
        new.removed(0) == old,
        !old.can_alloc(size, align),
        size > 0,
        is_pow2(align),
    ensures
        new.can_alloc(size, align) ==> {
            &&& first_fit(new.stacks, size, align) == 0
            &&& new.allocated(size, align).removed(0) == old
            &&& new.allocated(size, align).len() == old.len() + 1
            &&& new.allocated(size, align).owner(new.alloc_addr(size, align)) == 0
        },
{
    lemma_first_fit(old.stacks, size, align);
    lemma_first_fit(new.stacks, size, align);
    assert(new.stacks.skip(1) =~= new.stacks.remove(0));
    if new.can_alloc(size, align) {
        let after = new.allocated(size, align);
        assert(after.removed(0).stacks =~= old.stacks);
        assert(after.removed(0).spaces =~= old.spaces);
        assert(after.removed(0).headers =~= old.headers);
        assert(new.stacks[0].wf());
        lemma_allocated(new.stacks[0], size, align);
        assert(after.stacks[0].owns(new.alloc_addr(size, align)));
    }
}

// ---------------------------------------------------------------------
// Where the blocks of the very large chain lie.
// ---------------------------------------------------------------------

/// A change of another chain than the very large chain leaves the blocks
/// where they are.
pub proof fn lemma_blocks_other_row(v: BucketsView, k: Bucket, row: Row)
    requires
        k != Bucket::VeryLarge,
    ensures
        v.with_row(k, row).blocks_in(v),
        v.blocks_in(v.with_row(k, row)),
{
    let w = v.with_row(k, row);
    assert(w.very_large == v.very_large);
    assert forall|base: int| #[trigger] w.has_block(base) implies v.has_block(base) by {
        let j = choose|j: int|
            #![trigger w.very_large.stacks[j]]
            0 <= j < w.very_large.len() && w.very_large.stacks[j].base == base;
        assert(v.very_large.stacks[j].base == base);
    }
    assert forall|base: int| #[trigger] v.has_block(base) implies w.has_block(base) by {
        let j = choose|j: int|
            #![trigger v.very_large.stacks[j]]
            0 <= j < v.very_large.len() && v.very_large.stacks[j].base == base;
        assert(w.very_large.stacks[j].base == base);
    }
}

/// A chain with the same nodes at the same places has its blocks where
/// they were.
pub proof fn lemma_blocks_same_places(v: BucketsView, k: Bucket, row: Row)
    requires
        v.row(k).same_places(row),
    ensures
        v.with_row(k, row).blocks_in(v),
{
    let w = v.with_row(k, row);
    lemma_with_row(v, k, row);
    if k != Bucket::VeryLarge {
        lemma_blocks_other_row(v, k, row);
    } else {
        assert forall|base: int| #[trigger] w.has_block(base) implies v.has_block(base) by {
            let j = choose|j: int|
                #![trigger w.very_large.stacks[j]]
                0 <= j < w.very_large.len() && w.very_large.stacks[j].base == base;
            assert(v.row(k).stacks[j].same_place(row.stacks[j]));
            assert(v.very_large.stacks[j].base == base);
        }
    }
}

/// After a node was put in front of a chain the blocks lie where they
/// were, or, where the chain is the very large chain, where the new stack
/// lies.
pub proof fn lemma_blocks_pushed(v: BucketsView, k: Bucket, head: StackView, header: int)
    ensures
        v.with_row(k, v.row(k).pushed(head, header)).blocks_in_or(v, head.base),
        k != Bucket::VeryLarge ==> v.with_row(k, v.row(k).pushed(head, header)).blocks_in(v),
{
    let w = v.with_row(k, v.row(k).pushed(head, header));
    lemma_with_row(v, k, v.row(k).pushed(head, header));
    if k != Bucket::VeryLarge {
        lemma_blocks_other_row(v, k, v.row(k).pushed(head, header));
    } else {
        assert forall|base: int| #[trigger] w.has_block(base) implies v.has_block(base) || base
            == head.base by {
            let j = choose|j: int|
                #![trigger w.very_large.stacks[j]]
                0 <= j < w.very_large.len() && w.very_large.stacks[j].base == base;
            if j > 0 {
                assert(w.very_large.stacks[j] == v.very_large.stacks[j - 1]);
            }
        }
    }
}

/// After an allocation was taken back from a chain, with all that follows
/// from it, the blocks lie where blocks lay before.
pub proof fn lemma_blocks_deallocated(v: BucketsView, k: Bucket, ptr: int, size: int)
    requires
        v.inv(),
        v.free_held(k, ptr, size),
    ensures
        v.deallocated(k, ptr, size).blocks_in(v),
    decreases k.depth(),
{
    let row = v.row(k);
    let j = row.owner(ptr);
    let first = v.with_row(k, row.deallocated(ptr, size));
    lemma_step_deallocated(v, k, ptr, size);
    lemma_with_row(v, k, row.deallocated(ptr, size));
    assert(row.wf(k.chunk()));
    assert(first.blocks_in(v)) by {
        if row.collapses(ptr, size) {
            if k != Bucket::VeryLarge {
                lemma_blocks_other_row(v, k, row.deallocated(ptr, size));
            } else {
                assert forall|base: int| #[trigger] first.has_block(base) implies v.has_block(
                    base,
                ) by {
                    let i = choose|i: int|
                        #![trigger first.very_large.stacks[i]]
                        0 <= i < first.very_large.len() && first.very_large.stacks[i].base == base;
                    let i0 = if i < j {
                        i
                    } else {
                        i + 1
                    };
                    assert(first.very_large.stacks[i] == v.very_large.stacks[i0]);
                }
            }
        } else {
            lemma_deallocated_claims(v, k, ptr, size);
            lemma_blocks_same_places(v, k, row.deallocated(ptr, size));
        }
    }
    if row.collapses(ptr, size) {
        let second = match k.parent() {
            Some(p) => first.deallocated(p, row.stacks[j].base, k.stack_bytes()),
            None => first,
        };
        if k.parent() is Some {
            lemma_blocks_deallocated(first, k.parent().unwrap(), row.stacks[j].base, k.stack_bytes());
        }
        lemma_blocks_step(second, first, v);
        let last = second.with_row(
            Bucket::Metadata,
            second.metadata.deallocated(row.headers[j], 64),
        );
        lemma_blocks_other_row(second, Bucket::Metadata, second.metadata.deallocated(row.headers[j], 64));
        lemma_blocks_step(last, second, v);
    }
}

/// Where the blocks lie where blocks lay before, twice over, they do so
/// from the first state to the last.
pub proof fn lemma_blocks_step(w: BucketsView, v: BucketsView, u: BucketsView)
    requires
        w.blocks_in(v),
        v.blocks_in(u),
    ensures
        w.blocks_in(u),
{
    assert forall|base: int| #[trigger] w.has_block(base) implies u.has_block(base) by {
        assert(v.has_block(base));
    }
}

/// After a block was taken up the blocks lie where they lay, or at the
/// address of the block.
pub proof fn lemma_blocks_with_block(v: BucketsView, block: int)
    ensures
        v.with_block(block).blocks_in_or(v, block),
        v.bootstrapped(block).blocks_in_or(v, block),
{
    let md = Bucket::Metadata;
    let vl = Bucket::VeryLarge;
    {
        let n = StackView::empty(block, 4096).allocated(4096, 64);
        let w1 = v.with_row(vl, v.very_large.pushed(n, block + 64));
        let m = StackView::empty(block, 64).allocated(64, 64).allocated(64, 64);
        let w = w1.with_row(md, w1.metadata.pushed(m, block));
        assert(w1.metadata == v.metadata);
        assert(w == v.bootstrapped(block));
        lemma_blocks_pushed(v, vl, n, block + 64);
        lemma_blocks_other_row(w1, md, w1.metadata.pushed(m, block));
        assert forall|base: int| #[trigger] w.has_block(base) implies v.has_block(base) || base
            == block by {
            assert(w1.has_block(base));
        }
    }
    if v.metadata.can_alloc(64, 64) {
        let w1 = v.with_row(md, v.metadata.allocated(64, 64));
        let head = StackView::empty(block, 4096);
        let w = w1.with_row(vl, v.very_large.pushed(head, v.metadata.alloc_addr(64, 64)));
        assert(w1.very_large == v.very_large);
        assert(w == v.with_block(block));
        lemma_blocks_other_row(v, md, v.metadata.allocated(64, 64));
        lemma_blocks_pushed(w1, vl, head, v.metadata.alloc_addr(64, 64));
        assert forall|base: int| #[trigger] w.has_block(base) implies v.has_block(base) || base
            == block by {
            if base != block {
                assert(w1.has_block(base));
            }
        }
    }
}

} // verus!
