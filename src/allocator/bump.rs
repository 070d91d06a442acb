//! Bump strategy: one cursor that only moves forward, and a count of live
//! allocations; the whole heap is reclaimed once that count drops to zero.
use vstd::prelude::*;
use super::{align_up_spec, checked_align_up, lemma_align_up};

verus! {

/// The state of a bump allocator as plain numbers.
pub struct BumpView {
    pub heap_start: usize,
    pub heap_end: usize,
    pub allocations: usize,
    pub next: usize,
}

/// The state after a request for `size` bytes aligned to `align`, and the
/// address handed out: the cursor rounded up to `align` starts the block,
/// which must end before the heap's end.
pub open spec fn alloc_spec(v: BumpView, size: int, align: int) -> (BumpView, Option<usize>) {
    let start = align_up_spec(v.next as int, align);
    let end = start + size;
    if end >= v.heap_end {
        (v, None)
    } else {
        (BumpView { next: end as usize, allocations: (v.allocations + 1) as usize, ..v }, Some(start as usize))
    }
}

/// The state after one block was given back: the cursor returns to the
/// heap's start once no block is live.
pub open spec fn dealloc_spec(v: BumpView) -> BumpView {
    if v.allocations == 1 {
        BumpView { allocations: 0, next: v.heap_start, ..v }
    } else {
        BumpView { allocations: (v.allocations - 1) as usize, ..v }
    }
}

/// Bump allocator over `[heap_start, heap_end)`.
pub struct BumpAllocator {
    heap_start: usize,
    heap_end: usize,
    allocations: usize,
    next: usize,
}

impl View for BumpAllocator {
    type V = BumpView;

    closed spec fn view(&self) -> BumpView {
        BumpView {
            heap_start: self.heap_start,
            heap_end: self.heap_end,
            allocations: self.allocations,
            next: self.next,
        }
    }
}

/// The cursor lies inside the heap, and each live block holds at least one
/// byte in front of it.
pub open spec fn bump_wf(v: BumpView) -> bool {
    &&& v.heap_start <= v.next <= v.heap_end
    &&& v.allocations <= v.next - v.heap_start
    &&& v.allocations == 0 ==> v.next == v.heap_start
}

impl BumpAllocator {
    pub open spec fn wf(&self) -> bool {
        bump_wf(self@)
    }

    /// An allocator over an empty heap.
    pub fn new() -> (r: Self)
        ensures
            r.wf(),
            r@ == (BumpView { heap_start: 0, heap_end: 0, allocations: 0, next: 0 }),
    {
        BumpAllocator { heap_start: 0, heap_end: 0, allocations: 0, next: 0 }
    }

    /// Places the allocator over `[heap_start, heap_start + heap_size)`, with
    /// nothing allocated.
    pub fn init(&mut self, heap_start: usize, heap_size: usize)
        requires
            heap_start + heap_size <= usize::MAX,
        ensures
            final(self).wf(),
            final(self)@ == (BumpView {
                heap_start,
                heap_end: (heap_start + heap_size) as usize,
                allocations: 0,
                next: heap_start,
            }),
    {
        self.heap_start = heap_start;
        self.heap_end = heap_start + heap_size;
        self.allocations = 0;
        self.next = heap_start;
    }

    /// Cursor: where the next block will be placed, before alignment.
    pub fn next(&self) -> (r: usize)
        ensures
            r == self@.next,
    {
        self.next
    }

    /// Number of live blocks.
    pub fn allocations(&self) -> (r: usize)
        ensures
            r == self@.allocations,
    {
        self.allocations
    }

    /// Places a block of `size` bytes at the cursor rounded up to `align`;
    /// `None`, with nothing changed, where it would reach the heap's end.
    pub fn allocate(&mut self, size: usize, align: usize) -> (r: Option<usize>)
        requires
            old(self).wf(),
            size > 0,
            align > 0,
        ensures
            final(self).wf(),
            (final(self)@, r) == alloc_spec(old(self)@, size as int, align as int),
            r matches Some(p) ==> p % align == 0,
    {
        proof {
            lemma_align_up(self.next as int, align as int);
        }
        let alloc_start = match checked_align_up(self.next, align) {
            Some(s) => s,
            None => return None,
        };
        let alloc_end = match alloc_start.checked_add(size) {
            Some(e) => e,
            None => return None,
        };
        if alloc_end >= self.heap_end {
            None
        } else {
            self.next = alloc_end;
            self.allocations = self.allocations + 1;
            Some(alloc_start)
        }
    }

    /// Gives back one block; once none is live the cursor returns to the
    /// heap's start.
    pub fn deallocate(&mut self)
        requires
            old(self).wf(),
            old(self)@.allocations > 0,
        ensures
            final(self).wf(),
            final(self)@ == dealloc_spec(old(self)@),
    {
        self.allocations = self.allocations - 1;
        if self.allocations == 0 {
            self.next = self.heap_start;
        }
    }
}

/// The state after the requests of `reqs` (size, alignment), in order.
pub open spec fn alloc_all(v: BumpView, reqs: Seq<(usize, usize)>) -> BumpView
    decreases reqs.len(),
{
    if reqs.len() == 0 {
        v
    } else {
        alloc_all(alloc_spec(v, reqs[0].0 as int, reqs[0].1 as int).0, reqs.drop_first())
    }
}

/// The state after `n` blocks were given back.
pub open spec fn dealloc_n(v: BumpView, n: nat) -> BumpView
    decreases n,
{
    if n == 0 {
        v
    } else {
        dealloc_n(dealloc_spec(v), (n - 1) as nat)
    }
}

proof fn lemma_alloc_all(v: BumpView, reqs: Seq<(usize, usize)>)
    requires
        bump_wf(v),
        forall|i: int| 0 <= i < reqs.len() ==> (#[trigger] reqs[i]).0 > 0 && reqs[i].1 > 0,
    ensures
        bump_wf(alloc_all(v, reqs)),
        alloc_all(v, reqs).heap_start == v.heap_start,
        alloc_all(v, reqs).heap_end == v.heap_end,
        alloc_all(v, reqs).allocations <= v.allocations + reqs.len(),
    decreases reqs.len(),
{
    if reqs.len() > 0 {
        let w = alloc_spec(v, reqs[0].0 as int, reqs[0].1 as int).0;
        lemma_align_up(v.next as int, reqs[0].1 as int);
        assert(bump_wf(w));
        let rest = reqs.drop_first();
        assert forall|i: int| 0 <= i < rest.len() implies (#[trigger] rest[i]).0 > 0 && rest[i].1 > 0 by {
            assert(rest[i] == reqs[i + 1]);
        }
        lemma_alloc_all(w, rest);
    }
}

proof fn lemma_dealloc_n(v: BumpView, n: nat)
    requires
        bump_wf(v),
        v.allocations == n,
    ensures
        dealloc_n(v, n) == (BumpView { allocations: 0, next: v.heap_start, ..v }),
    decreases n,
{
    if n > 0 {
        lemma_dealloc_n(dealloc_spec(v), (n - 1) as nat);
    }
}

/// Reclaim: from a heap with no live block, any run of requests followed by
/// as many releases as there were blocks handed out puts the allocator back
/// where it was, cursor at the heap's start; the next request whose
/// alignment the heap's start meets is placed at the heap's start again.
pub proof fn lemma_bump_reclaim(v: BumpView, reqs: Seq<(usize, usize)>, size: usize, align: usize)
    requires
        bump_wf(v),
        v.allocations == 0,
        forall|i: int| 0 <= i < reqs.len() ==> (#[trigger] reqs[i]).0 > 0 && reqs[i].1 > 0,
        align > 0,
        v.heap_start % align == 0,
        v.heap_start + size < v.heap_end,
    ensures
        alloc_all(v, reqs).allocations <= reqs.len(),
        dealloc_n(alloc_all(v, reqs), alloc_all(v, reqs).allocations as nat) == v,
        dealloc_n(alloc_all(v, reqs), alloc_all(v, reqs).allocations as nat).next == v.heap_start,
        alloc_spec(dealloc_n(alloc_all(v, reqs), alloc_all(v, reqs).allocations as nat), size as int, align as int).1
            == Some(v.heap_start),
{
    lemma_alloc_all(v, reqs);
    let w = alloc_all(v, reqs);
    lemma_dealloc_n(w, w.allocations as nat);
}

/// Exhaustion: a request that a failure answers changes nothing; from a heap
/// with no live block, a request for the heap's whole size or more fails,
/// since a block must end before the heap's end, and a smaller one whose
/// alignment the heap's start meets is then still placed at the heap's start.
pub proof fn lemma_bump_exhaustion(v: BumpView, size: usize, align: usize, smaller: usize)
    requires
        bump_wf(v),
        v.allocations == 0,
        align > 0,
        size >= v.heap_end - v.heap_start,
        v.heap_start % align == 0,
        0 < smaller < v.heap_end - v.heap_start,
    ensures
        alloc_spec(v, size as int, align as int) == (v, None::<usize>),
        alloc_spec(v, smaller as int, align as int).1 == Some(v.heap_start),
        forall|w: BumpView, s: int, a: int| (#[trigger] alloc_spec(w, s, a)).1 is None ==> alloc_spec(w, s, a).0 == w,
{
}

} // verus!
