//! Fixed-size-class strategy: one free list per block size, with the
//! first-fit free list as fallback for large requests and fresh blocks.
use vstd::prelude::*;
use super::{is_pow2, lemma_mod_transitive, lemma_pow2_divides};
use super::free_list::{self, FreeListAllocator, lemma_free_list_round_trip, NODE_ALIGN, Region, norm_size, normalizable, region_ok};

verus! {

/// Number of block sizes.
pub const BLOCK_COUNT: usize = 9;

/// Bytes of the block of class `index`: 8, 16, 32, ..., 2048.
pub open spec fn block_size_spec(index: int) -> int {
    if index == 0 {
        8
    } else if index == 1 {
        16
    } else if index == 2 {
        32
    } else if index == 3 {
        64
    } else if index == 4 {
        128
    } else if index == 5 {
        256
    } else if index == 6 {
        512
    } else if index == 7 {
        1024
    } else {
        2048
    }
}

/// The smallest class whose blocks hold `s` bytes, if any does.
pub open spec fn class_of(s: int) -> Option<int> {
    if s <= 8 {
        Some(0)
    } else if s <= 16 {
        Some(1)
    } else if s <= 32 {
        Some(2)
    } else if s <= 64 {
        Some(3)
    } else if s <= 128 {
        Some(4)
    } else if s <= 256 {
        Some(5)
    } else if s <= 512 {
        Some(6)
    } else if s <= 1024 {
        Some(7)
    } else if s <= 2048 {
        Some(8)
    } else {
        None
    }
}

/// The class that serves a request of `size` bytes aligned to `align`.
pub open spec fn request_class(size: int, align: int) -> Option<int> {
    class_of(if size >= align { size } else { align })
}

pub proof fn lemma_block_size_pow2(index: int)
    requires
        0 <= index < BLOCK_COUNT,
    ensures
        is_pow2(block_size_spec(index)),
        block_size_spec(index) % (NODE_ALIGN as int) == 0,
{
    assert(is_pow2(1));
    assert(is_pow2(2));
    assert(is_pow2(4));
    assert(is_pow2(8));
    assert(is_pow2(16));
    assert(is_pow2(32));
    assert(is_pow2(64));
    assert(is_pow2(128));
    assert(is_pow2(256));
    assert(is_pow2(512));
    assert(is_pow2(1024));
    assert(is_pow2(2048));
}

proof fn lemma_class_of(s: int, i: int)
    requires
        0 <= i < BLOCK_COUNT,
        i == 0 || block_size_spec(i - 1) < s,
        s <= block_size_spec(i),
    ensures
        class_of(s) == Some(i),
{
    if i == 0 {
    } else if i == 1 {
    } else if i == 2 {
    } else if i == 3 {
    } else if i == 4 {
    } else if i == 5 {
    } else if i == 6 {
    } else if i == 7 {
    } else {
    }
}

/// Bytes of the block of class `index`.
pub fn block_size(index: usize) -> (r: usize)
    requires
        index < BLOCK_COUNT,
    ensures
        r == block_size_spec(index as int),
{
    match index {
        0 => 8,
        1 => 16,
        2 => 32,
        3 => 64,
        4 => 128,
        5 => 256,
        6 => 512,
        7 => 1024,
        _ => 2048,
    }
}

/// The class that serves a request: the smallest block size not below the
/// larger of `size` and `align`; `None` past the largest class.
pub fn block_list_index(size: usize, align: usize) -> (r: Option<usize>)
    ensures
        r == (match request_class(size as int, align as int) {
            Some(i) => Some(i as usize),
            None => None::<usize>,
        }),
{
    let s = if size >= align { size } else { align };
    let mut i: usize = 0;
    while i < BLOCK_COUNT
        invariant
            i <= BLOCK_COUNT,
            s == (if size >= align { size } else { align }),
            forall|j: int| 0 <= j < i ==> block_size_spec(j) < s,
        decreases BLOCK_COUNT - i,
    {
        if block_size(i) >= s {
            proof {
                if i > 0 {
                    assert(block_size_spec(i - 1) < s);
                }
                lemma_class_of(s as int, i as int);
            }
            return Some(i);
        }
        i += 1;
    }
    assert(block_size_spec(8) < s);
    None
}

/// The state of the allocator: the free blocks of each class (the last one
/// is the head of its list), and the fallback's free regions.
pub type FixedView = (Seq<Seq<usize>>, Seq<Region>);

/// The state after a request, and the address handed out: the head of the
/// request's class list where there is one, else a fresh block of the class
/// size from the fallback; requests past the largest class go to the
/// fallback as they are.
pub open spec fn alloc_spec(v: FixedView, size: int, align: int) -> (FixedView, Option<usize>) {
    match request_class(size, align) {
        Some(i) => if v.0[i].len() > 0 {
            ((v.0.update(i, v.0[i].drop_last()), v.1), Some(v.0[i].last()))
        } else {
            let (f, r) = free_list::alloc_spec(v.1, block_size_spec(i), block_size_spec(i));
            ((v.0, f), r)
        },
        None => {
            let (f, r) = free_list::alloc_spec(v.1, size, align);
            ((v.0, f), r)
        },
    }
}

/// The state after the block at `ptr` was given back: it heads its class
/// list, or goes back to the fallback where the request had no class.
pub open spec fn dealloc_spec(v: FixedView, ptr: int, size: int, align: int) -> FixedView {
    match request_class(size, align) {
        Some(i) => (v.0.update(i, v.0[i].push(ptr as usize)), v.1),
        None => (v.0, free_list::dealloc_spec(v.1, ptr, size, align)),
    }
}

/// What a block given back must satisfy, as every block that `allocate`
/// handed out for that request does: aligned to its class size, or fit to
/// go back on the fallback's list.
pub open spec fn dealloc_ok(ptr: int, size: int, align: int) -> bool {
    match request_class(size, align) {
        Some(i) => ptr % block_size_spec(i) == 0,
        None => {
            &&& normalizable(size, align)
            &&& ptr % (NODE_ALIGN as int) == 0
            &&& ptr + norm_size(size, align) <= usize::MAX
        },
    }
}

/// Every class list holds blocks aligned to its size; the fallback's regions
/// can hold their nodes.
pub open spec fn fixed_wf(v: FixedView) -> bool {
    &&& v.0.len() == BLOCK_COUNT
    &&& forall|i: int, j: int| 0 <= i < BLOCK_COUNT && 0 <= j < v.0[i].len()
        ==> (#[trigger] v.0[i][j]) as int % block_size_spec(i) == 0
    &&& forall|k: int| 0 <= k < v.1.len() ==> region_ok(#[trigger] v.1[k])
}

/// Allocator with one free list per block size and a first-fit fallback.
pub struct FixedAllocator {
    heads: Vec<Vec<usize>>,
    fallback: FreeListAllocator,
}

impl View for FixedAllocator {
    type V = FixedView;

    closed spec fn view(&self) -> FixedView {
        (Seq::new(self.heads@.len(), |i: int| self.heads@[i]@), self.fallback@)
    }
}

impl FixedAllocator {
    pub open spec fn wf(&self) -> bool {
        fixed_wf(self@)
    }

    proof fn lemma_fallback_wf(&self)
        requires
            self.wf(),
        ensures
            self.fallback.wf(),
            self@.1 == self.fallback@,
    {
        assert forall|k: int| 0 <= k < self.fallback@.len() implies region_ok(#[trigger] self.fallback@[k]) by {
            assert(self@.1[k] == self.fallback@[k]);
        }
    }

    /// An allocator with empty class lists and an empty fallback.
    pub fn new() -> (r: Self)
        ensures
            r.wf(),
            r@.0 == Seq::new(BLOCK_COUNT as nat, |i: int| Seq::<usize>::empty()),
            r@.1 == Seq::<Region>::empty(),
    {
        let mut heads: Vec<Vec<usize>> = Vec::new();
        let mut i: usize = 0;
        while i < BLOCK_COUNT
            invariant
                i <= BLOCK_COUNT,
                heads@.len() == i,
                forall|j: int| 0 <= j < i ==> (#[trigger] heads@[j])@ == Seq::<usize>::empty(),
            decreases BLOCK_COUNT - i,
        {
            heads.push(Vec::new());
            i += 1;
        }
        let r = FixedAllocator { heads, fallback: FreeListAllocator::new() };
        assert(r@.0 =~= Seq::new(BLOCK_COUNT as nat, |i: int| Seq::<usize>::empty()));
        r
    }

    /// Hands the heap `[heap_start, heap_start + heap_size)` to the fallback.
    pub fn init(&mut self, heap_start: usize, heap_size: usize)
        requires
            old(self).wf(),
            region_ok(Region { start: heap_start, size: heap_size }),
        ensures
            final(self).wf(),
            final(self)@ == (old(self)@.0, seq![Region { start: heap_start, size: heap_size }] + old(self)@.1),
    {
        self.fallback.init(heap_start, heap_size);
        assert(self@.0 =~= old(self)@.0);
    }

    /// Takes a block from the fallback; `None` where it has none that fits.
    fn fallback_alloc(&mut self, size: usize, align: usize) -> (r: Option<usize>)
        requires
            old(self).wf(),
            is_pow2(align as int),
        ensures
            final(self).wf(),
            final(self)@.0 == old(self)@.0,
            (final(self)@.1, r) == free_list::alloc_spec(old(self)@.1, size as int, align as int),
            r matches Some(p) ==> p % align == 0,
    {
        proof {
            self.lemma_fallback_wf();
        }
        let r = self.fallback.allocate(size, align);
        assert(self@.0 =~= old(self)@.0);
        assert forall|k: int| 0 <= k < self@.1.len() implies region_ok(#[trigger] self@.1[k]) by {
            assert(self@.1[k] == self.fallback@[k]);
        }
        r
    }

    /// Serves a request from its class list, or from the fallback (see
    /// `alloc_spec`); `None` where the fallback has no room.
    pub fn allocate(&mut self, size: usize, align: usize) -> (r: Option<usize>)
        requires
            old(self).wf(),
            is_pow2(align as int),
        ensures
            final(self).wf(),
            (final(self)@, r) == alloc_spec(old(self)@, size as int, align as int),
            r matches Some(p) ==> p % align == 0,
    {
        match block_list_index(size, align) {
            Some(idx) => {
                proof {
                    lemma_block_size_pow2(idx as int);
                    lemma_pow2_divides(align as int, block_size_spec(idx as int));
                }
                if self.heads[idx].len() > 0 {
                    let ghost lists = self@.0;
                    let blk = self.heads[idx].pop().unwrap();
                    proof {
                        assert(self@.0 =~= lists.update(idx as int, lists[idx as int].drop_last()));
                        assert(blk as int % block_size_spec(idx as int) == 0);
                        lemma_mod_transitive(blk as int, block_size_spec(idx as int), align as int);
                    }
                    Some(blk)
                } else {
                    let bs = block_size(idx);
                    let r = self.fallback_alloc(bs, bs);
                    proof {
                        if r is Some {
                            lemma_mod_transitive(r->0 as int, bs as int, align as int);
                        }
                    }
                    r
                }
            },
            None => self.fallback_alloc(size, align),
        }
    }

    /// Gives back the block at `ptr` that was handed out for `size` bytes
    /// aligned to `align` (see `dealloc_spec`).
    pub fn deallocate(&mut self, ptr: usize, size: usize, align: usize)
        requires
            old(self).wf(),
            is_pow2(align as int),
            dealloc_ok(ptr as int, size as int, align as int),
        ensures
            final(self).wf(),
            final(self)@ == dealloc_spec(old(self)@, ptr as int, size as int, align as int),
    {
        match block_list_index(size, align) {
            Some(idx) => {
                let ghost lists = self@.0;
                self.heads[idx].push(ptr);
                assert(self@.0 =~= lists.update(idx as int, lists[idx as int].push(ptr)));
                assert forall|i: int, j: int| 0 <= i < BLOCK_COUNT && 0 <= j < self@.0[i].len()
                    implies (#[trigger] self@.0[i][j]) as int % block_size_spec(i) == 0 by {
                    if i != idx {
                        assert(self@.0[i][j] == lists[i][j]);
                    } else if j < lists[i].len() {
                        assert(self@.0[i][j] == lists[i][j]);
                    } else {
                        assert(self@.0[i][j] == ptr);
                    }
                }
                assert(self@.1 == old(self)@.1);
                assert(self@.0.len() == BLOCK_COUNT);
                assert(fixed_wf(self@));
            },
            None => {
                proof {
                    self.lemma_fallback_wf();
                }
                self.fallback.deallocate(ptr, size, align);
                assert(self@.0 =~= old(self)@.0);
                assert forall|k: int| 0 <= k < self@.1.len() implies region_ok(#[trigger] self@.1[k]) by {
                    assert(self@.1[k] == self.fallback@[k]);
                }
            },
        }
    }
}

/// Round trip: a block handed out and given straight back is handed out
/// again, at the same address, for the same request, whether it came from
/// a class list, fresh from the fallback for its class, or from the
/// fallback directly; the allocator is then as it was after the first
/// request.
pub proof fn lemma_fixed_round_trip(v: FixedView, size: usize, align: usize)
    requires
        fixed_wf(v),
        is_pow2(align as int),
        alloc_spec(v, size as int, align as int).1 is Some,
    ensures
        ({
            let (after, r) = alloc_spec(v, size as int, align as int);
            let p = r->0;
            &&& dealloc_ok(p as int, size as int, align as int)
            &&& alloc_spec(dealloc_spec(after, p as int, size as int, align as int), size as int, align as int)
                == (after, Some(p))
        }),
{
    let (after, r) = alloc_spec(v, size as int, align as int);
    let p = r->0;
    match request_class(size as int, align as int) {
        Some(i) => {
            lemma_block_size_pow2(i);
            let bs = block_size_spec(i);
            if v.0[i].len() > 0 {
                assert(v.0[i][v.0[i].len() - 1] as int % bs == 0);
            } else {
                lemma_free_list_round_trip(v.1, bs as usize, bs as usize);
            }
            let back = dealloc_spec(after, p as int, size as int, align as int);
            assert(back.0[i] =~= after.0[i].push(p));
            assert(back.0[i].drop_last() =~= after.0[i]);
            assert(back.0.update(i, back.0[i].drop_last()) =~= after.0);
        },
        None => {
            lemma_free_list_round_trip(v.1, size, align);
        },
    }
}

} // verus!
