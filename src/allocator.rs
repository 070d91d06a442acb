//! Heap window and the helpers shared by the allocation strategies.
use vstd::prelude::*;
use crate::memory::{BootInfoFrameAllocator, in_usable_region, nth_frame};
use crate::paging::{PageRange, covering};

pub mod bump;
pub mod fixed;
pub mod free_list;

verus! {

/// Start of the heap window (virtual address).
pub const HEAP_START: u64 = 0x4444_4444_0000;

/// Size of the heap window in bytes (100 KiB).
pub const HEAP_SIZE: usize = 102400;

/// The pages of the heap window, each to be backed by a frame of its own
/// before the heap is handed to an allocation strategy.
pub fn heap_page_range() -> (r: PageRange)
    ensures
        r == PageRange::covering(HEAP_START as int, HEAP_SIZE as int),
        r.start == HEAP_START,
        r.count == 25,
        r.wf(),
{
    covering(HEAP_START, HEAP_SIZE as u64)
}

/// What backing the heap window asks for next.
#[derive(Clone, Copy, Debug, PartialEq, Eq, Structural)]
pub enum HeapBackingStep {
    /// Map heap page `page` to the fresh frame `frame`, present and
    /// writable.
    MapPage { page: u64, frame: u64 },
    /// The frame source ran out; the pages mapped so far stay mapped.
    Failed,
    /// Every heap page is mapped: the heap can be handed to an allocator.
    Done,
}

/// Backing of the heap window, one page at a time: each page gets the next
/// frame of the frame source, in page order.
pub struct HeapBacking {
    pages: PageRange,
    next: u64,
}

impl View for HeapBacking {
    type V = (PageRange, u64);

    /// The heap's pages, and how many of them were handed out for mapping.
    closed spec fn view(&self) -> (PageRange, u64) {
        (self.pages, self.next)
    }
}

impl HeapBacking {
    pub open spec fn wf(&self) -> bool {
        &&& self@.0 == PageRange::covering(HEAP_START as int, HEAP_SIZE as int)
        &&& self@.0.wf()
        &&& self@.1 <= self@.0.count
    }

    /// Nothing mapped yet.
    pub fn new() -> (r: Self)
        ensures
            r.wf(),
            r@.1 == 0,
    {
        HeapBacking { pages: heap_page_range(), next: 0 }
    }

    /// The next thing to do: `Done` once every page was handed out; else the
    /// next page with a fresh frame from `frames`, or `Failed` where there
    /// is none, in which case the backing stays where it was.
    pub fn step(&mut self, frames: &mut BootInfoFrameAllocator) -> (r: HeapBackingStep)
        requires
            old(self).wf(),
        ensures
            final(self).wf(),
            old(self)@.1 == old(self)@.0.count ==> r == HeapBackingStep::Done && *final(self) == *old(self)
                && final(frames)@ == old(frames)@,
            old(self)@.1 < old(self)@.0.count ==> final(frames)@ == (old(frames)@.0, if old(frames)@.1 == u64::MAX {
                u64::MAX
            } else {
                (old(frames)@.1 + 1) as u64
            }),
            old(self)@.1 < old(self)@.0.count ==> match nth_frame(old(frames)@.0, old(frames)@.1 as nat) {
                Some(f) => r == (HeapBackingStep::MapPage { page: old(self)@.0.page(old(self)@.1 as int) as u64, frame: f })
                    && final(self)@ == (old(self)@.0, (old(self)@.1 + 1) as u64),
                None => r == HeapBackingStep::Failed && final(self)@ == old(self)@,
            },
            r matches HeapBackingStep::MapPage { page, frame } ==> in_usable_region(old(frames)@.0, frame as int),
    {
        if self.next == self.pages.count {
            return HeapBackingStep::Done;
        }
        match frames.allocate_frame() {
            Some(frame) => {
                let page = self.pages.page_at(self.next);
                self.next = self.next + 1;
                HeapBackingStep::MapPage { page, frame }
            },
            None => HeapBackingStep::Failed,
        }
    }
}

/// `addr` rounded up to the next multiple of `align`.
pub open spec fn align_up_spec(addr: int, align: int) -> int {
    if addr % align == 0 {
        addr
    } else {
        addr - addr % align + align
    }
}

/// Whether `n` is a power of two.
pub open spec fn is_pow2(n: int) -> bool
    decreases n,
{
    if n <= 0 {
        false
    } else if n == 1 {
        true
    } else {
        n % 2 == 0 && is_pow2(n / 2)
    }
}

pub proof fn lemma_align_up(addr: int, align: int)
    requires
        addr >= 0,
        align > 0,
    ensures
        align_up_spec(addr, align) % align == 0,
        addr <= align_up_spec(addr, align) < addr + align,
        0 <= addr % align <= addr,
{
    vstd::arithmetic::div_mod::lemma_fundamental_div_mod(addr, align);
    vstd::arithmetic::div_mod::lemma_div_pos_is_pos(addr, align);
    assert(align * (addr / align) >= 0) by (nonlinear_arith)
        requires align > 0, addr / align >= 0;
    if addr % align != 0 {
        vstd::arithmetic::div_mod::lemma_mod_multiples_basic(addr / align + 1, align);
        assert(addr - addr % align + align == align * (addr / align + 1)) by (nonlinear_arith)
            requires addr == align * (addr / align) + addr % align;
    }
}

/// A power of two divides every power of two that is not smaller.
pub proof fn lemma_pow2_divides(a: int, b: int)
    requires
        is_pow2(a),
        is_pow2(b),
        a <= b,
    ensures
        b % a == 0,
    decreases a,
{
    if a != 1 {
        lemma_pow2_divides(a / 2, b / 2);
        let k = (b / 2) / (a / 2);
        vstd::arithmetic::div_mod::lemma_fundamental_div_mod(b / 2, a / 2);
        assert(b == a * k) by (nonlinear_arith)
            requires
                b / 2 == (a / 2) * k + (b / 2) % (a / 2),
                (b / 2) % (a / 2) == 0,
                b % 2 == 0,
                a % 2 == 0,
        ;
        vstd::arithmetic::div_mod::lemma_mod_multiples_basic(k, a);
    }
}

/// A multiple of a multiple of `m` is a multiple of `m`.
pub proof fn lemma_mod_transitive(x: int, a: int, m: int)
    requires
        x >= 0,
        a > 0,
        m > 0,
        x % a == 0,
        a % m == 0,
    ensures
        x % m == 0,
{
    vstd::arithmetic::div_mod::lemma_fundamental_div_mod(x, a);
    vstd::arithmetic::div_mod::lemma_fundamental_div_mod(a, m);
    let k = (x / a) * (a / m);
    assert(x == m * k) by (nonlinear_arith)
        requires
            x == a * (x / a),
            a == m * (a / m),
            k == (x / a) * (a / m),
    ;
    vstd::arithmetic::div_mod::lemma_mod_multiples_basic(k, m);
}

/// Rounds `addr` up to the next multiple of `align`.
pub fn align_up(addr: usize, align: usize) -> (r: usize)
    requires
        align > 0,
        align_up_spec(addr as int, align as int) <= usize::MAX,
    ensures
        r == align_up_spec(addr as int, align as int),
        r % align == 0,
        addr <= r < addr + align,
{
    proof {
        lemma_align_up(addr as int, align as int);
    }
    let r = addr % align;
    if r == 0 {
        addr
    } else {
        addr - r + align
    }
}

/// Rounds `addr` up to a multiple of `align`, or `None` where that does not
/// fit in a `usize`.
pub fn checked_align_up(addr: usize, align: usize) -> (r: Option<usize>)
    requires
        align > 0,
    ensures
        r == (if align_up_spec(addr as int, align as int) <= usize::MAX {
            Some(align_up_spec(addr as int, align as int) as usize)
        } else {
            None::<usize>
        }),
{
    proof {
        lemma_align_up(addr as int, align as int);
    }
    let r = addr % align;
    if r == 0 {
        Some(addr)
    } else {
        (addr - r).checked_add(align)
    }
}

} // verus!
