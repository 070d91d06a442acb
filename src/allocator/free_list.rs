//! General-purpose strategy: one list of free regions, searched first-fit.
//!
//! Each free region carries its own bookkeeping node (a size and a link) in
//! its first bytes, so a region is only ever as small as that node. Here the
//! list is held explicitly, head first, as a sequence of regions.
use vstd::prelude::*;
use super::{
    align_up_spec, checked_align_up, is_pow2, lemma_align_up, lemma_mod_transitive,
    lemma_pow2_divides,
};

verus! {

/// Bytes taken by the bookkeeping node of a free region.
pub const NODE_SIZE: usize = 16;

/// Alignment of the bookkeeping node of a free region.
pub const NODE_ALIGN: usize = 8;

/// A free region: `size` bytes from address `start`.
#[derive(Clone, Copy, Debug, PartialEq, Eq, Structural)]
pub struct Region {
    pub start: usize,
    pub size: usize,
}

impl Region {
    pub open spec fn end(self) -> int {
        self.start + self.size
    }

    /// First address of the region.
    pub fn start_addr(&self) -> (r: usize)
        ensures
            r == self.start,
    {
        self.start
    }

    /// First address past the region.
    pub fn end_addr(&self) -> (r: usize)
        requires
            self.end() <= usize::MAX,
        ensures
            r == self.end(),
    {
        self.start + self.size
    }
}

/// A region that can stand on the free list: aligned for its node, large
/// enough to hold it, and inside the address space.
pub open spec fn region_ok(r: Region) -> bool {
    &&& r.start as int % (NODE_ALIGN as int) == 0
    &&& r.size >= NODE_SIZE
    &&& r.end() <= usize::MAX
}

/// Where an allocation of `size` bytes aligned to `align` starts inside
/// `r`, if it fits there: it must end inside the region and leave either
/// nothing or room for a node behind it.
pub open spec fn fit_start(r: Region, size: int, align: int) -> Option<int> {
    let start = align_up_spec(r.start as int, align);
    let end = start + size;
    if end > r.end() {
        None
    } else if r.end() - end > 0 && r.end() - end < NODE_SIZE {
        None
    } else {
        Some(start)
    }
}

/// Index of the first region of `regions` into which the request fits.
pub open spec fn first_fit(regions: Seq<Region>, size: int, align: int) -> Option<int>
    decreases regions.len(),
{
    if regions.len() == 0 {
        None
    } else if fit_start(regions[0], size, align) is Some {
        Some(0)
    } else {
        match first_fit(regions.drop_first(), size, align) {
            Some(i) => Some(i + 1),
            None => None,
        }
    }
}

/// Alignment of a request once raised to the node's alignment.
pub open spec fn norm_align(align: int) -> int {
    if align < NODE_ALIGN as int {
        NODE_ALIGN as int
    } else {
        align
    }
}

/// Size of a request once padded to its alignment and raised to the node's
/// size.
pub open spec fn norm_size(size: int, align: int) -> int {
    let padded = align_up_spec(size, norm_align(align));
    if padded < NODE_SIZE as int {
        NODE_SIZE as int
    } else {
        padded
    }
}

/// Whether a request can be normalised at all (the padded size must stay
/// within `isize::MAX`).
pub open spec fn normalizable(size: int, align: int) -> bool {
    align_up_spec(size, norm_align(align)) <= isize::MAX
}

/// The free list after `size` bytes aligned to `align` were taken from it,
/// and the address handed out.
pub open spec fn alloc_spec(regions: Seq<Region>, size: int, align: int) -> (Seq<Region>, Option<usize>) {
    let s = norm_size(size, align);
    let a = norm_align(align);
    if !normalizable(size, align) {
        (regions, None)
    } else {
        match first_fit(regions, s, a) {
            None => (regions, None),
            Some(i) => {
                let r = regions[i];
                let p = fit_start(r, s, a)->0;
                let rest = regions.remove(i);
                if r.end() > p + s {
                    (seq![Region { start: (p + s) as usize, size: (r.end() - (p + s)) as usize }] + rest, Some(p as usize))
                } else {
                    (rest, Some(p as usize))
                }
            },
        }
    }
}

/// The free list after the block at `ptr`, requested as `size` bytes
/// aligned to `align`, was given back.
pub open spec fn dealloc_spec(regions: Seq<Region>, ptr: int, size: int, align: int) -> Seq<Region> {
    seq![Region { start: ptr as usize, size: norm_size(size, align) as usize }] + regions
}

pub proof fn lemma_first_fit(regions: Seq<Region>, size: int, align: int, i: int)
    requires
        0 <= i <= regions.len(),
        forall|j: int| 0 <= j < i ==> fit_start(#[trigger] regions[j], size, align) is None,
    ensures
        i < regions.len() && fit_start(regions[i], size, align) is Some ==> first_fit(regions, size, align) == Some(i),
        i == regions.len() ==> first_fit(regions, size, align) is None,
    decreases i,
{
    if i > 0 && regions.len() > 0 {
        let rest = regions.drop_first();
        assert forall|j: int| 0 <= j < i - 1 implies fit_start(#[trigger] rest[j], size, align) is None by {
            assert(rest[j] == regions[j + 1]);
        }
        lemma_first_fit(rest, size, align, i - 1);
    }
}

pub proof fn lemma_first_fit_bounds(regions: Seq<Region>, size: int, align: int)
    ensures
        first_fit(regions, size, align) matches Some(i) ==> 0 <= i < regions.len()
            && fit_start(regions[i], size, align) is Some,
    decreases regions.len(),
{
    if regions.len() > 0 {
        lemma_first_fit_bounds(regions.drop_first(), size, align);
    }
}

pub proof fn lemma_pow2_small()
    ensures
        is_pow2(8),
        is_pow2(16),
{
    assert(is_pow2(1));
    assert(is_pow2(2));
    assert(is_pow2(4));
    assert(is_pow2(8));
    assert(is_pow2(16));
}

pub proof fn lemma_norm(size: int, align: int)
    requires
        size >= 0,
        is_pow2(align),
    ensures
        is_pow2(norm_align(align)),
        norm_align(align) % align == 0,
        norm_align(align) % (NODE_ALIGN as int) == 0,
        norm_size(size, align) % (NODE_ALIGN as int) == 0,
        norm_size(size, align) >= size,
        norm_size(size, align) >= NODE_SIZE,
        align_up_spec(size, norm_align(align)) % norm_align(align) == 0,
{
    let a = norm_align(align);
    lemma_pow2_small();
    if align < 8 {
        lemma_pow2_divides(align, 8);
    } else {
        lemma_pow2_divides(8, align);
    }
    lemma_align_up(size, a);
    lemma_mod_transitive(align_up_spec(size, a), a, 8);
}

/// First-fit allocator over a list of free regions.
pub struct FreeListAllocator {
    regions: Vec<Region>,
}

impl View for FreeListAllocator {
    type V = Seq<Region>;

    closed spec fn view(&self) -> Seq<Region> {
        self.regions@
    }
}

impl FreeListAllocator {
    /// Every region on the list can hold its node.
    pub open spec fn wf(&self) -> bool {
        forall|i: int| 0 <= i < self@.len() ==> region_ok(#[trigger] self@[i])
    }

    /// An allocator with no free region.
    pub fn new() -> (r: Self)
        ensures
            r@ == Seq::<Region>::empty(),
            r.wf(),
    {
        FreeListAllocator { regions: Vec::new() }
    }

    /// Hands the heap `[heap_start, heap_start + heap_size)` to the allocator.
    pub fn init(&mut self, heap_start: usize, heap_size: usize)
        requires
            old(self).wf(),
            region_ok(Region { start: heap_start, size: heap_size }),
        ensures
            final(self).wf(),
            final(self)@ == seq![Region { start: heap_start, size: heap_size }] + old(self)@,
    {
        self.add_free_region(heap_start, heap_size);
    }

    /// Puts `[addr, addr + size)` at the head of the free list.
    pub fn add_free_region(&mut self, addr: usize, size: usize)
        requires
            old(self).wf(),
            region_ok(Region { start: addr, size }),
        ensures
            final(self).wf(),
            final(self)@ == seq![Region { start: addr, size }] + old(self)@,
    {
        self.regions.insert(0, Region { start: addr, size });
        assert(self@ =~= seq![Region { start: addr, size }] + old(self)@);
    }

    /// The free regions, head first.
    pub fn free_regions(&self) -> (r: Vec<Region>)
        ensures
            r@ == self@,
    {
        let mut r: Vec<Region> = Vec::new();
        let mut i: usize = 0;
        while i < self.regions.len()
            invariant
                i <= self.regions@.len(),
                r@ == self.regions@.subrange(0, i as int),
            decreases self.regions@.len() - i,
        {
            r.push(self.regions[i]);
            i += 1;
            assert(r@ =~= self.regions@.subrange(0, i as int));
        }
        assert(r@ =~= self.regions@);
        r
    }

    /// Unlinks the first region into which `size` bytes aligned to `align`
    /// fit, and returns it with the address where the allocation starts.
    pub fn find_region(&mut self, size: usize, align: usize) -> (r: Option<(Region, usize)>)
        requires
            old(self).wf(),
            align > 0,
        ensures
            final(self).wf(),
            match first_fit(old(self)@, size as int, align as int) {
                None => r is None && final(self)@ == old(self)@,
                Some(i) => r == Some((old(self)@[i], fit_start(old(self)@[i], size as int, align as int)->0 as usize))
                    && final(self)@ == old(self)@.remove(i),
            },
    {
        let mut i: usize = 0;
        while i < self.regions.len()
            invariant
                self.wf(),
                align > 0,
                self@ == old(self)@,
                i <= self.regions@.len(),
                forall|j: int| 0 <= j < i ==> fit_start(#[trigger] self@[j], size as int, align as int) is None,
            decreases self.regions@.len() - i,
        {
            let region = self.regions[i];
            assert(region == self@[i as int]);
            if let Ok(alloc_start) = Self::align_from_region(&region, size, align) {
                proof {
                    lemma_first_fit(self@, size as int, align as int, i as int);
                }
                let found = self.regions.remove(i);
                assert forall|j: int| 0 <= j < self@.len() implies region_ok(#[trigger] self@[j]) by {
                    if j < i {
                        assert(self@[j] == old(self)@[j]);
                    } else {
                        assert(self@[j] == old(self)@[j + 1]);
                    }
                }
                return Some((found, alloc_start));
            }
            i += 1;
        }
        proof {
            lemma_first_fit(self@, size as int, align as int, i as int);
        }
        None
    }

    /// Where an allocation of `size` bytes aligned to `align` starts inside
    /// `region`, or `Err` where it does not fit (see `fit_start`).
    pub fn align_from_region(region: &Region, size: usize, align: usize) -> (r: Result<usize, ()>)
        requires
            align > 0,
            region.end() <= usize::MAX,
        ensures
            r == (match fit_start(*region, size as int, align as int) {
                Some(s) => Ok::<usize, ()>(s as usize),
                None => Err(()),
            }),
    {
        proof {
            lemma_align_up(region.start as int, align as int);
        }
        let alloc_start = match checked_align_up(region.start_addr(), align) {
            Some(s) => s,
            None => return Err(()),
        };
        let alloc_end = match alloc_start.checked_add(size) {
            Some(e) => e,
            None => return Err(()),
        };
        let region_end = region.end_addr();
        if alloc_end > region_end {
            return Err(());
        }
        let excess = region_end - alloc_end;
        if excess > 0 && excess < NODE_SIZE {
            return Err(());
        }
        Ok(alloc_start)
    }

    /// The size and alignment that a request is served with: the alignment
    /// raised to the node's, the size padded to it and raised to the node's
    /// size; `None` where the padded size would pass `isize::MAX`.
    pub fn size_align(size: usize, align: usize) -> (r: Option<(usize, usize)>)
        requires
            align > 0,
        ensures
            r == (if normalizable(size as int, align as int) {
                Some((norm_size(size as int, align as int) as usize, norm_align(align as int) as usize))
            } else {
                None::<(usize, usize)>
            }),
    {
        let align = if align < NODE_ALIGN { NODE_ALIGN } else { align };
        let padded = match checked_align_up(size, align) {
            Some(p) => p,
            None => return None,
        };
        if padded > isize::MAX as usize {
            return None;
        }
        let size = if padded < NODE_SIZE { NODE_SIZE } else { padded };
        Some((size, align))
    }

    /// Takes `size` bytes aligned to `align` from the first region that
    /// fits; what is left behind the block goes back on the list as a new
    /// region. `None` where no region fits.
    pub fn allocate(&mut self, size: usize, align: usize) -> (r: Option<usize>)
        requires
            old(self).wf(),
            is_pow2(align as int),
        ensures
            final(self).wf(),
            (final(self)@, r) == alloc_spec(old(self)@, size as int, align as int),
            r matches Some(p) ==> p % align == 0,
    {
        proof {
            lemma_norm(size as int, align as int);
        }
        let (size, align2) = match Self::size_align(size, align) {
            Some(p) => p,
            None => return None,
        };
        proof {
            lemma_first_fit_bounds(old(self)@, size as int, align2 as int);
        }
        match self.find_region(size, align2) {
            Some((region, addr)) => {
                proof {
                    let i = first_fit(old(self)@, size as int, align2 as int)->0;
                    lemma_align_up(region.start as int, align2 as int);
                    lemma_mod_transitive(addr as int, align2 as int, align as int);
                    lemma_mod_transitive(addr as int, align2 as int, NODE_ALIGN as int);
                    assert(old(self)@[i] == region);
                }
                let alloc_end = addr + size;
                let excess = region.end_addr() - alloc_end;
                if excess > 0 {
                    assert((addr + size) % 8 == 0) by (nonlinear_arith)
                        requires addr % 8 == 0, size % 8 == 0;
                    self.add_free_region(alloc_end, excess);
                }
                Some(addr)
            },
            None => None,
        }
    }

    /// Gives back the block at `ptr` that was handed out for `size` bytes
    /// aligned to `align`: it goes to the head of the list.
    pub fn deallocate(&mut self, ptr: usize, size: usize, align: usize)
        requires
            old(self).wf(),
            is_pow2(align as int),
            normalizable(size as int, align as int),
            ptr % NODE_ALIGN == 0,
            ptr + norm_size(size as int, align as int) <= usize::MAX,
        ensures
            final(self).wf(),
            final(self)@ == dealloc_spec(old(self)@, ptr as int, size as int, align as int),
    {
        proof {
            lemma_norm(size as int, align as int);
        }
        let (size, _) = match Self::size_align(size, align) {
            Some(p) => p,
            None => return,
        };
        self.add_free_region(ptr, size);
    }
}

/// No two regions of `regions` share a byte.
pub open spec fn regions_disjoint(regions: Seq<Region>) -> bool {
    forall|i: int, j: int| 0 <= i < regions.len() && 0 <= j < regions.len() && i != j
        ==> (#[trigger] regions[i]).end() <= (#[trigger] regions[j]).start || regions[j].end() <= regions[i].start
}

/// Free or allocated, never both: where the free regions do not overlap,
/// they still do not after a request, and none of them overlaps the block
/// handed out, which lies inside the region it was taken from.
pub proof fn lemma_allocate_keeps_disjoint(regions: Seq<Region>, size: usize, align: usize)
    requires
        forall|i: int| 0 <= i < regions.len() ==> region_ok(#[trigger] regions[i]),
        regions_disjoint(regions),
        is_pow2(align as int),
        alloc_spec(regions, size as int, align as int).1 is Some,
    ensures
        ({
            let (after, r) = alloc_spec(regions, size as int, align as int);
            let p = r->0 as int;
            let e = p + norm_size(size as int, align as int);
            &&& regions_disjoint(after)
            &&& forall|k: int| 0 <= k < after.len() ==> (#[trigger] after[k]).end() <= p || e <= after[k].start
            &&& exists|i: int| 0 <= i < regions.len() && (#[trigger] regions[i]).start <= p && e <= regions[i].end()
        }),
{
    let s = norm_size(size as int, align as int);
    let a = norm_align(align as int);
    lemma_norm(size as int, align as int);
    lemma_first_fit_bounds(regions, s, a);
    let i = first_fit(regions, s, a)->0;
    let r = regions[i];
    lemma_align_up(r.start as int, a);
    let p = fit_start(r, s, a)->0;
    let e = p + s;
    let rest = regions.remove(i);
    let after = alloc_spec(regions, size as int, align as int).0;
    assert forall|k: int| 0 <= k < rest.len() implies (#[trigger] rest[k]).end() <= r.start || r.end() <= rest[k].start by {
        if k < i {
            assert(rest[k] == regions[k]);
        } else {
            assert(rest[k] == regions[k + 1]);
        }
    }
    assert(regions_disjoint(rest)) by {
        assert forall|x: int, y: int| 0 <= x < rest.len() && 0 <= y < rest.len() && x != y
            implies (#[trigger] rest[x]).end() <= (#[trigger] rest[y]).start || rest[y].end() <= rest[x].start by {
            let x2 = if x < i { x } else { x + 1 };
            let y2 = if y < i { y } else { y + 1 };
            assert(rest[x] == regions[x2] && rest[y] == regions[y2]);
        }
    }
    if r.end() > e {
        let left = Region { start: e as usize, size: (r.end() - e) as usize };
        assert(after == seq![left] + rest);
        assert forall|x: int, y: int| 0 <= x < after.len() && 0 <= y < after.len() && x != y
            implies (#[trigger] after[x]).end() <= (#[trigger] after[y]).start || after[y].end() <= after[x].start by {
            if x > 0 {
                assert(after[x] == rest[x - 1]);
            }
            if y > 0 {
                assert(after[y] == rest[y - 1]);
            }
        }
        assert forall|k: int| 0 <= k < after.len() implies (#[trigger] after[k]).end() <= p || e <= after[k].start by {
            if k > 0 {
                assert(after[k] == rest[k - 1]);
            }
        }
    } else {
        assert(after == rest);
    }
    assert(regions[i].start <= p && e <= regions[i].end());
}

/// Round trip: a block handed out and given straight back is handed out
/// again, at the same address, for the same request, and the list is then
/// as it was after the first request.
pub proof fn lemma_free_list_round_trip(regions: Seq<Region>, size: usize, align: usize)
    requires
        forall|i: int| 0 <= i < regions.len() ==> region_ok(#[trigger] regions[i]),
        is_pow2(align as int),
        alloc_spec(regions, size as int, align as int).1 is Some,
    ensures
        ({
            let (after, r) = alloc_spec(regions, size as int, align as int);
            let p = r->0;
            &&& p % align == 0
            &&& p % NODE_ALIGN == 0
            &&& p + norm_size(size as int, align as int) <= usize::MAX
            &&& alloc_spec(dealloc_spec(after, p as int, size as int, align as int), size as int, align as int)
                == (after, Some(p))
        }),
{
    let s = norm_size(size as int, align as int);
    let a = norm_align(align as int);
    lemma_norm(size as int, align as int);
    lemma_first_fit_bounds(regions, s, a);
    let i = first_fit(regions, s, a)->0;
    let r = regions[i];
    lemma_align_up(r.start as int, a);
    let p = fit_start(r, s, a)->0;
    lemma_mod_transitive(p, a, NODE_ALIGN as int);
    lemma_mod_transitive(p, a, align as int);
    let after = alloc_spec(regions, size as int, align as int).0;
    let back = dealloc_spec(after, p, size as int, align as int);
    let head = Region { start: p as usize, size: s as usize };
    assert(back[0] == head);
    lemma_align_up(p, a);
    assert(fit_start(head, s, a) == Some(p));
    assert(back.remove(0) =~= after);
}

} // verus!
