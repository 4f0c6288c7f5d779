//! Runs of requests against one stack or one chain: what is out after each
//! request, and what is left when everything has come back.

use vstd::prelude::*;
use vstd::arithmetic::power2::is_pow2;
use crate::bitmapped_stack::{
    StackView,
    lemma_allocated,
    lemma_chunks_and_bytes,
    lemma_deallocated,
    lemma_holds,
    overlap,
};
use crate::bits::lemma_top_below;
use crate::sized_allocator::{
    ChainView,
    all_apart,
    all_wf,
    held,
    lemma_allocated_frame,
    lemma_deallocated_frame,
    lemma_first_fit,
    lemma_first_owner,
    lemma_owner_unique,
};

verus! {

/// A request to a stack.
pub enum StackOp {
    /// Hand out `size` bytes with the alignment.
    Allocate { size: int, align: int },
    /// Take back the `size` bytes at `ptr`.
    Dealloc { ptr: int, size: int },
}

/// A stack together with the allocations that are out: each with its
/// address and its size.
pub struct StackRun {
    /// The stack as it stands.
    pub stack: StackView,
    /// The allocations that are out.
    pub out: Set<(int, int)>,
}

impl StackRun {
    /// A stack that has handed out nothing.
    pub open spec fn start(base: int, chunk: int) -> StackRun {
        StackRun { stack: StackView::empty(base, chunk), out: Set::empty() }
    }

    /// Whether the request may be made: an allocation asks for at least one
    /// byte with an alignment that is a power of two, and a deallocation
    /// gives back an allocation that is out.
    pub open spec fn admits(self, op: StackOp) -> bool {
        match op {
            StackOp::Allocate { size, align } => size > 0 && is_pow2(align),
            StackOp::Dealloc { ptr, size } => self.out.contains((ptr, size)),
        }
    }

    /// The stack and what is out after the request. An allocation that does
    /// not fit changes nothing.
    pub open spec fn step(self, op: StackOp) -> StackRun {
        match op {
            StackOp::Allocate { size, align } => if self.stack.can_alloc(size, align) {
                StackRun {
                    stack: self.stack.allocated(size, align),
                    out: self.out.insert((self.stack.alloc_addr(align), size)),
                }
            } else {
                self
            },
            StackOp::Dealloc { ptr, size } => StackRun {
                stack: self.stack.deallocated(ptr, size),
                out: self.out.remove((ptr, size)),
            },
        }
    }

    /// Whether each of the requests may be made when its turn comes.
    pub open spec fn admits_all(self, ops: Seq<StackOp>) -> bool
        decreases ops.len(),
    {
        ops.len() == 0 || (self.admits(ops[0]) && self.step(ops[0]).admits_all(ops.skip(1)))
    }

    /// The stack and what is out after all the requests.
    pub open spec fn run(self, ops: Seq<StackOp>) -> StackRun
        decreases ops.len(),
    {
        if ops.len() == 0 {
            self
        } else {
            self.step(ops[0]).run(ops.skip(1))
        }
    }

    /// Whether the books are right: the stack is well formed, it hands out
    /// every allocation that is out, no two of them share a chunk, and
    /// every chunk in use belongs to one of them.
    pub open spec fn balanced(self) -> bool {
        &&& self.stack.wf()
        &&& forall|a: (int, int)| #[trigger] self.out.contains(a) ==> self.stack.holds(a.0, a.1)
        &&& forall|a: (int, int), b: (int, int)|
            #![trigger self.out.contains(a), self.out.contains(b)]
            self.out.contains(a) && self.out.contains(b) && a != b ==> !overlap(
                a.0,
                a.1,
                b.0,
                b.1,
            )
        &&& forall|c: int|
            self.stack.used.contains(c) ==> exists|a: (int, int)|
                #![trigger self.out.contains(a)]
                self.out.contains(a) && self.stack.chunks_at(a.0, a.1).contains(c)
    }
}

/// A request that may be made keeps the books right.
pub proof fn lemma_step_balanced(run: StackRun, op: StackOp)
    requires
        run.balanced(),
        run.admits(op),
    ensures
        run.step(op).balanced(),
{
    let next = run.step(op);
    let v = run.stack;
    match op {
        StackOp::Allocate { size, align } => {
            if v.can_alloc(size, align) {
                let p = v.alloc_addr(align);
                lemma_allocated(v, size, align);
                let w = next.stack;
                assert forall|a: (int, int)| #[trigger] next.out.contains(a) implies w.holds(
                    a.0,
                    a.1,
                ) by {
                    if a != (p, size) {
                        assert(run.out.contains(a));
                        assert(v.holds(a.0, a.1));
                    }
                }
                assert forall|a: (int, int), b: (int, int)|
                    #![trigger next.out.contains(a), next.out.contains(b)]
                    next.out.contains(a) && next.out.contains(b) && a != b implies !overlap(
                    a.0,
                    a.1,
                    b.0,
                    b.1,
                ) by {
                    if a == (p, size) || b == (p, size) {
                        let other = if a == (p, size) {
                            b
                        } else {
                            a
                        };
                        if other.0 == p && other.1 != size {
                            // it would be out already at the new address
                            assert(run.out.contains(other));
                            assert(v.holds(other.0, other.1));
                            lemma_holds(v, other.0, other.1);
                            assert(v.chunks_at(other.0, other.1).contains(v.chunk_of(p)));
                            assert(v.chunks_at(p, size).contains(v.chunk_of(p)));
                        } else {
                            assert(run.out.contains(other));
                            assert(v.holds(other.0, other.1));
                            lemma_holds(v, other.0, other.1);
                            lemma_chunks_and_bytes(w, p, size, other.0, other.1);
                            assert(w.chunks_at(p, size).disjoint(w.chunks_at(other.0, other.1)));
                        }
                    } else {
                        assert(run.out.contains(a) && run.out.contains(b));
                    }
                }
                assert forall|c: int| w.used.contains(c) implies exists|a: (int, int)|
                    #![trigger next.out.contains(a)]
                    next.out.contains(a) && w.chunks_at(a.0, a.1).contains(c) by {
                    if v.used.contains(c) {
                        let a = choose|a: (int, int)|
                            #![trigger run.out.contains(a)]
                            run.out.contains(a) && v.chunks_at(a.0, a.1).contains(c);
                        assert(next.out.contains(a));
                    } else {
                        assert(next.out.contains((p, size)));
                    }
                }
            }
        },
        StackOp::Dealloc { ptr, size } => {
            assert(v.holds(ptr, size));
            lemma_deallocated(v, ptr, size);
            lemma_holds(v, ptr, size);
            let w = next.stack;
            assert forall|a: (int, int)| #[trigger] next.out.contains(a) implies w.holds(
                a.0,
                a.1,
            ) by {
                assert(run.out.contains(a) && run.out.contains((ptr, size)));
                assert(v.holds(a.0, a.1));
                lemma_chunks_and_bytes(v, ptr, size, a.0, a.1);
            }
            assert forall|a: (int, int), b: (int, int)|
                #![trigger next.out.contains(a), next.out.contains(b)]
                next.out.contains(a) && next.out.contains(b) && a != b implies !overlap(
                a.0,
                a.1,
                b.0,
                b.1,
            ) by {
                assert(run.out.contains(a) && run.out.contains(b));
            }
            assert forall|c: int| w.used.contains(c) implies exists|a: (int, int)|
                #![trigger next.out.contains(a)]
                next.out.contains(a) && w.chunks_at(a.0, a.1).contains(c) by {
                let a = choose|a: (int, int)|
                    #![trigger run.out.contains(a)]
                    run.out.contains(a) && v.chunks_at(a.0, a.1).contains(c);
                assert(next.out.contains(a));
            }
        },
    }
}

/// Requests that may be made keep the books right.
pub proof fn lemma_run_balanced(run: StackRun, ops: Seq<StackOp>)
    requires
        run.balanced(),
        run.admits_all(ops),
    ensures
        run.run(ops).balanced(),
    decreases ops.len(),
{
    if ops.len() > 0 {
        lemma_step_balanced(run, ops[0]);
        lemma_run_balanced(run.step(ops[0]), ops.skip(1));
    }
}

/// After any run of allocations and matching deallocations on a stack that
/// started empty, with everything given back, the stack is as it started:
/// no chunk is in use, and the height is 0, so that all 64 chunks are free.
/// While allocations are out, no two of them have a byte in common.
pub proof fn lemma_matched_run(base: int, chunk: int, ops: Seq<StackOp>)
    requires
        StackView::valid_geometry(base, chunk),
        StackRun::start(base, chunk).admits_all(ops),
    ensures
        StackRun::start(base, chunk).run(ops).balanced(),
        StackRun::start(base, chunk).run(ops).out == Set::<(int, int)>::empty() ==> StackRun::start(
            base,
            chunk,
        ).run(ops).stack == StackView::empty(base, chunk),
{
    let start = StackRun::start(base, chunk);
    crate::bits::lemma_top_below_unique(Set::<int>::empty(), 64, 0);
    assert(start.balanced());
    lemma_run_balanced(start, ops);
    lemma_run_place(start, ops);
    let end = start.run(ops);
    if end.out == Set::<(int, int)>::empty() {
        assert(end.stack.used =~= Set::<int>::empty());
        lemma_top_below(end.stack.used, 64);
    }
}

/// A run leaves the stack where it is.
pub proof fn lemma_run_place(run: StackRun, ops: Seq<StackOp>)
    ensures
        run.run(ops).stack.same_place(run.stack),
    decreases ops.len(),
{
    if ops.len() > 0 {
        lemma_run_place(run.step(ops[0]), ops.skip(1));
    }
}

/// A chain together with the allocations that are out: each with its
/// address and its size.
pub struct ChainRun {
    /// The chain as it stands.
    pub chain: ChainView,
    /// The allocations that are out.
    pub out: Set<(int, int)>,
}

impl ChainRun {
    /// Whether the request may be made: an allocation asks for at least one
    /// byte with an alignment that is a power of two, and a deallocation
    /// gives back an allocation that is out.
    pub open spec fn admits(self, op: StackOp) -> bool {
        match op {
            StackOp::Allocate { size, align } => size > 0 && is_pow2(align),
            StackOp::Dealloc { ptr, size } => self.out.contains((ptr, size)),
        }
    }

    /// The chain and what is out after the request. An allocation that no
    /// node has room for changes nothing.
    pub open spec fn step(self, op: StackOp) -> ChainRun {
        match op {
            StackOp::Allocate { size, align } => if self.chain.can_alloc(size, align) {
                ChainRun {
                    chain: self.chain.allocated(size, align),
                    out: self.out.insert((self.chain.alloc_addr(size, align), size)),
                }
            } else {
                self
            },
            StackOp::Dealloc { ptr, size } => ChainRun {
                chain: self.chain.deallocated(ptr, size),
                out: self.out.remove((ptr, size)),
            },
        }
    }

    /// Whether each of the requests may be made when its turn comes.
    pub open spec fn admits_all(self, ops: Seq<StackOp>) -> bool
        decreases ops.len(),
    {
        ops.len() == 0 || (self.admits(ops[0]) && self.step(ops[0]).admits_all(ops.skip(1)))
    }

    /// The chain and what is out after all the requests.
    pub open spec fn run(self, ops: Seq<StackOp>) -> ChainRun
        decreases ops.len(),
    {
        if ops.len() == 0 {
            self
        } else {
            self.step(ops[0]).run(ops.skip(1))
        }
    }

    /// Whether the books are right: the chain is well formed and its stacks
    /// lie apart, it hands out every allocation that is out, no two of them
    /// have a byte in common, and every chunk in use in a node belongs to
    /// one of them.
    pub open spec fn balanced(self) -> bool {
        &&& self.chain.wf()
        &&& all_apart(self.chain.stacks)
        &&& forall|a: (int, int)| #[trigger] self.out.contains(a) ==> self.chain.holds(a.0, a.1)
        &&& forall|a: (int, int), b: (int, int)|
            #![trigger self.out.contains(a), self.out.contains(b)]
            self.out.contains(a) && self.out.contains(b) && a != b ==> !overlap(
                a.0,
                a.1,
                b.0,
                b.1,
            )
        &&& forall|i: int, c: int|
            0 <= i < self.chain.len() && #[trigger] self.chain.stacks[i].used.contains(c)
                ==> exists|a: (int, int)|
                #![trigger self.out.contains(a)]
                self.out.contains(a) && self.chain.stacks[i].holds(a.0, a.1)
                    && self.chain.stacks[i].chunks_at(a.0, a.1).contains(c)
    }

    /// Whether every node is empty, with a cached count of 64 free chunks.
    pub open spec fn drained(self) -> bool {
        forall|i: int|
            0 <= i < self.chain.len() ==> (#[trigger] self.chain.stacks[i]).used == Set::<
                int,
            >::empty() && self.chain.stacks[i].height == 0 && self.chain.spaces[i] == 64
    }
}

/// An allocation of a chain keeps the books right.
pub proof fn lemma_chain_allocate_balanced(run: ChainRun, size: int, align: int)
    requires
        run.balanced(),
        size > 0,
        is_pow2(align),
    ensures
        run.step(StackOp::Allocate { size, align }).balanced(),
{
    let c = run.chain;
    if c.can_alloc(size, align) {
        let next = run.step(StackOp::Allocate { size, align });
        let d = next.chain;
        let p = c.alloc_addr(size, align);
        let k = c.server(size, align);
        lemma_first_fit(c.stacks, size, align);
        lemma_allocated_frame(c, size, align);
        assert(c.stacks[k].wf());
        lemma_allocated(c.stacks[k], size, align);
        assert forall|a: (int, int)| #[trigger] next.out.contains(a) implies d.holds(a.0, a.1) by {
            if a != (p, size) {
                assert(run.out.contains(a));
                assert(held(c.stacks, a.0, a.1));
            }
        }
        assert forall|a: (int, int), b: (int, int)|
            #![trigger next.out.contains(a), next.out.contains(b)]
            next.out.contains(a) && next.out.contains(b) && a != b implies !overlap(
            a.0,
            a.1,
            b.0,
            b.1,
        ) by {
            if a == (p, size) || b == (p, size) {
                let other = if a == (p, size) {
                    b
                } else {
                    a
                };
                if other.0 == p {
                    assert(run.out.contains(other));
                    assert(held(c.stacks, other.0, other.1));
                    assert(!overlap(p, size, other.0, other.1));
                } else {
                    assert(run.out.contains(other));
                    assert(held(c.stacks, other.0, other.1));
                }
            } else {
                assert(run.out.contains(a) && run.out.contains(b));
            }
        }
        assert forall|i: int, x: int|
            0 <= i < d.len() && #[trigger] d.stacks[i].used.contains(x) implies exists|
            a: (int, int),
        |
            #![trigger next.out.contains(a)]
            next.out.contains(a) && d.stacks[i].holds(a.0, a.1) && d.stacks[i].chunks_at(
                a.0,
                a.1,
            ).contains(x) by {
            if c.stacks[i].used.contains(x) {
                let a = choose|a: (int, int)|
                    #![trigger run.out.contains(a)]
                    run.out.contains(a) && c.stacks[i].holds(a.0, a.1) && c.stacks[i].chunks_at(
                        a.0,
                        a.1,
                    ).contains(x);
                assert(next.out.contains(a));
                assert(d.stacks[i].holds(a.0, a.1));
            } else {
                assert(i == k);
                assert(next.out.contains((p, size)));
            }
        }
    }
}

/// A deallocation of a chain keeps the books right.
pub proof fn lemma_chain_dealloc_balanced(run: ChainRun, ptr: int, size: int)
    requires
        run.balanced(),
        run.out.contains((ptr, size)),
    ensures
        run.step(StackOp::Dealloc { ptr, size }).balanced(),
{
    let c = run.chain;
    let next = run.step(StackOp::Dealloc { ptr, size });
    let d = next.chain;
    let k = c.owner(ptr);
    assert(c.holds(ptr, size));
    lemma_first_owner(c.stacks, ptr);
    lemma_deallocated_frame(c, ptr, size);
    let v = c.stacks[k];
    assert(v.wf());
    lemma_holds(v, ptr, size);
    lemma_deallocated(v, ptr, size);
    assert(all_wf(c.stacks, c.chunk())) by {
        assert forall|i: int| 0 <= i < c.stacks.len() implies (#[trigger] c.stacks[i]).wf()
            && c.stacks[i].chunk == c.chunk() by {}
    }
    assert forall|a: (int, int)| #[trigger] next.out.contains(a) implies d.holds(a.0, a.1) by {
        assert(run.out.contains(a) && run.out.contains((ptr, size)));
        assert(held(c.stacks, a.0, a.1));
    }
    assert forall|a: (int, int), b: (int, int)|
        #![trigger next.out.contains(a), next.out.contains(b)]
        next.out.contains(a) && next.out.contains(b) && a != b implies !overlap(
        a.0,
        a.1,
        b.0,
        b.1,
    ) by {
        assert(run.out.contains(a) && run.out.contains(b));
    }
    assert forall|i: int, x: int|
        0 <= i < d.len() && #[trigger] d.stacks[i].used.contains(x) implies exists|a: (int, int)|
        #![trigger next.out.contains(a)]
        next.out.contains(a) && d.stacks[i].holds(a.0, a.1) && d.stacks[i].chunks_at(
            a.0,
            a.1,
        ).contains(x) by {
        // the node as it stood before
        let i0 = if c.collapses(ptr, size) && i >= k {
            i + 1
        } else {
            i
        };
        assert(d.stacks[i].same_place(c.stacks[i0]));
        assert(c.stacks[i0].used.contains(x));
        let a = choose|a: (int, int)|
            #![trigger run.out.contains(a)]
            run.out.contains(a) && c.stacks[i0].holds(a.0, a.1) && c.stacks[i0].chunks_at(
                a.0,
                a.1,
            ).contains(x);
        if i0 == k {
            assert(!c.collapses(ptr, size));
            assert(a != (ptr, size));
            assert(run.out.contains((ptr, size)));
            assert(!overlap(ptr, size, a.0, a.1));
            lemma_chunks_and_bytes(v, ptr, size, a.0, a.1);
            assert(d.stacks[i].holds(a.0, a.1));
        } else {
            if a == (ptr, size) {
                lemma_owner_unique(c.stacks, c.chunk(), i0, ptr);
            }
        }
        assert(next.out.contains(a));
    }
}

/// Requests that may be made keep the books of a chain right.
pub proof fn lemma_chain_run_balanced(run: ChainRun, ops: Seq<StackOp>)
    requires
        run.balanced(),
        run.admits_all(ops),
    ensures
        run.run(ops).balanced(),
    decreases ops.len(),
{
    if ops.len() > 0 {
        match ops[0] {
            StackOp::Allocate { size, align } => {
                lemma_chain_allocate_balanced(run, size, align);
            },
            StackOp::Dealloc { ptr, size } => {
                lemma_chain_dealloc_balanced(run, ptr, size);
            },
        }
        lemma_chain_run_balanced(run.step(ops[0]), ops.skip(1));
    }
}

/// After any run of allocations and matching deallocations on a chain
/// whose books are right, with everything given back, every node that is
/// left in the chain is empty, and its cached count of free chunks is 64.
/// While allocations are out, no two of them have a byte in common.
pub proof fn lemma_matched_chain_run(run: ChainRun, ops: Seq<StackOp>)
    requires
        run.balanced(),
        run.admits_all(ops),
    ensures
        run.run(ops).balanced(),
        run.run(ops).out == Set::<(int, int)>::empty() ==> run.run(ops).drained(),
{
    lemma_chain_run_balanced(run, ops);
    let end = run.run(ops);
    if end.out == Set::<(int, int)>::empty() {
        assert forall|i: int| 0 <= i < end.chain.len() implies (#[trigger] end.chain.stacks[i]).used
            == Set::<int>::empty() && end.chain.stacks[i].height == 0 && end.chain.spaces[i]
            == 64 by {
            let stack = end.chain.stacks[i];
            assert forall|x: int| !stack.used.contains(x) by {
                if end.chain.stacks[i].used.contains(x) {
                    let a = choose|a: (int, int)|
                        #![trigger end.out.contains(a)]
                        end.out.contains(a) && end.chain.stacks[i].holds(a.0, a.1);
                    assert(end.out.contains(a));
                }
            }
            assert(stack.used =~= Set::<int>::empty());
            assert(stack.wf());
            lemma_top_below(stack.used, 64);
        }
    }
}

/// A chain of nodes with empty stacks that lie apart has its books right
/// with nothing out.
pub proof fn lemma_fresh_chain_balanced(chain: ChainView)
    requires
        chain.wf(),
        all_apart(chain.stacks),
        forall|i: int|
            0 <= i < chain.len() ==> (#[trigger] chain.stacks[i]).used == Set::<int>::empty(),
    ensures
        (ChainRun { chain, out: Set::empty() }).balanced(),
{
}

/// Where giving back an allocation empties a node that is not the head of
/// its chain, the chain is one node shorter afterwards; otherwise it keeps
/// its length.
pub proof fn lemma_collapse_shortens(chain: ChainView, ptr: int, size: int)
    requires
        chain.wf(),
        chain.holds(ptr, size),
    ensures
        chain.deallocated(ptr, size).len() == if chain.collapses(ptr, size) {
            chain.len() - 1
        } else {
            chain.len()
        },
{
    lemma_first_owner(chain.stacks, ptr);
}

} // verus!
