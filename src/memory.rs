//! The physical frame source: hands out, one after the other, the whole 4 KiB
//! frames of the usable regions of the firmware's memory map. Frames are
//! never taken back.
use vstd::prelude::*;
use crate::allocator::{align_up_spec, lemma_align_up};
use crate::paging::{PAGE_SIZE, lemma_page_base, page_base};

verus! {

/// A region of the firmware's memory map: the physical addresses
/// `[start, end)`, usable for the kernel or reserved.
#[derive(Clone, Copy, Debug, PartialEq, Eq, Structural)]
pub struct MemoryRegion {
    pub start: u64,
    pub end: u64,
    pub usable: bool,
}

/// First address of the first whole frame inside a region: its start
/// rounded up to a frame boundary.
pub open spec fn frames_start(r: MemoryRegion) -> int {
    align_up_spec(r.start as int, PAGE_SIZE as int)
}

/// End of the last whole frame inside a region: its end rounded down to a
/// frame boundary.
pub open spec fn frames_end(r: MemoryRegion) -> int {
    page_base(r.end as int)
}

/// Number of frames that a region contributes: the whole 4 KiB frames that
/// lie inside it, for a usable region, and none otherwise.
pub open spec fn frame_count(r: MemoryRegion) -> int {
    if r.usable && frames_start(r) < frames_end(r) {
        (frames_end(r) - frames_start(r)) / (PAGE_SIZE as int)
    } else {
        0
    }
}

/// Frame `n` of the memory map, counting the whole frames inside the
/// usable regions, region by region in map order and upwards within each.
pub open spec fn nth_frame(regions: Seq<MemoryRegion>, n: nat) -> Option<u64>
    decreases regions.len(),
{
    if regions.len() == 0 {
        None
    } else if n < frame_count(regions[0]) {
        Some((frames_start(regions[0]) + n * (PAGE_SIZE as int)) as u64)
    } else {
        nth_frame(regions.drop_first(), (n - frame_count(regions[0])) as nat)
    }
}

/// Frame `f` starts on a frame boundary and lies wholly inside a usable
/// region of `regions`.
pub open spec fn in_usable_region(regions: Seq<MemoryRegion>, f: int) -> bool {
    &&& f % (PAGE_SIZE as int) == 0
    &&& exists|j: int| 0 <= j < regions.len() && (#[trigger] regions[j]).usable
        && regions[j].start <= f && f + (PAGE_SIZE as int) <= regions[j].end
}

/// A memory map whose usable regions do not overlap one another.
pub open spec fn map_wf(regions: Seq<MemoryRegion>) -> bool {
    forall|i: int, j: int| 0 <= i < j < regions.len() && (#[trigger] regions[i]).usable && (#[trigger] regions[j]).usable
        ==> regions[i].end <= regions[j].start || regions[j].end <= regions[i].start
}

/// Most regions a memory map may hold: the frame source keeps them in place,
/// with no dynamic memory, since it is needed before the heap exists.
pub const MAX_REGIONS: usize = 64;

/// Frame source over the usable regions of a memory map.
pub struct BootInfoFrameAllocator {
    memory_map: [MemoryRegion; MAX_REGIONS],
    len: usize,
    next: u64,
}

impl View for BootInfoFrameAllocator {
    type V = (Seq<MemoryRegion>, u64);

    /// The memory map, and how many frames were asked for so far.
    closed spec fn view(&self) -> (Seq<MemoryRegion>, u64) {
        (self.memory_map@.subrange(0, self.len as int), self.next)
    }
}

impl BootInfoFrameAllocator {
    #[verifier::type_invariant]
    spec fn inv(&self) -> bool {
        self.len <= MAX_REGIONS
    }
}

proof fn lemma_frame_in_region(r: MemoryRegion, n: int)
    requires
        0 <= n < frame_count(r),
    ensures
        r.usable,
        (frames_start(r) + n * (PAGE_SIZE as int)) % (PAGE_SIZE as int) == 0,
        r.start <= frames_start(r) + n * (PAGE_SIZE as int),
        frames_start(r) + n * (PAGE_SIZE as int) + (PAGE_SIZE as int) <= frames_end(r) <= r.end,
{
    let p = PAGE_SIZE as int;
    let lo = frames_start(r);
    let hi = frames_end(r);
    lemma_align_up(r.start as int, p);
    lemma_page_base(r.end as int);
    vstd::arithmetic::div_mod::lemma_fundamental_div_mod(lo, p);
    vstd::arithmetic::div_mod::lemma_fundamental_div_mod(hi, p);
    let a = lo / p;
    let b = hi / p;
    assert(hi - lo == p * (b - a)) by (nonlinear_arith)
        requires lo == p * a, hi == p * b;
    vstd::arithmetic::div_mod::lemma_div_multiples_vanish(b - a, p);
    assert(lo + n * p + p <= hi) by (nonlinear_arith)
        requires
            n < (hi - lo) / p,
            (hi - lo) / p == b - a,
            lo == p * a,
            hi == p * b,
            p > 0,
    ;
    assert(lo + n * p == p * (a + n)) by (nonlinear_arith)
        requires lo == p * a;
    vstd::arithmetic::div_mod::lemma_mod_multiples_basic(a + n, p);
}

/// A frame boundary not below `x` is not below `x` rounded up.
proof fn lemma_align_up_below(x: int, h: int)
    requires
        0 <= x <= h,
        h % (PAGE_SIZE as int) == 0,
    ensures
        align_up_spec(x, PAGE_SIZE as int) <= h,
{
    let p = PAGE_SIZE as int;
    vstd::arithmetic::div_mod::lemma_fundamental_div_mod(x, p);
    vstd::arithmetic::div_mod::lemma_fundamental_div_mod(h, p);
    if x % p != 0 {
        assert(x / p < h / p) by (nonlinear_arith)
            requires
                x == p * (x / p) + x % p,
                h == p * (h / p),
                x % p > 0,
                x <= h,
                p > 0,
        ;
        assert(x - x % p + p <= h) by (nonlinear_arith)
            requires
                x == p * (x / p) + x % p,
                h == p * (h / p),
                x / p + 1 <= h / p,
                p > 0,
        ;
    }
}

/// Every frame of the map lies wholly inside one of its usable regions.
pub proof fn lemma_nth_frame_in_map(regions: Seq<MemoryRegion>, n: nat)
    requires
        nth_frame(regions, n) is Some,
    ensures
        in_usable_region(regions, nth_frame(regions, n)->0 as int),
        nth_frame(regions, n)->0 + PAGE_SIZE <= u64::MAX,
    decreases regions.len(),
{
    let c = frame_count(regions[0]);
    if n < c {
        lemma_frame_in_region(regions[0], n as int);
    } else {
        let rest = regions.drop_first();
        lemma_nth_frame_in_map(rest, (n - c) as nat);
        let f = nth_frame(rest, (n - c) as nat)->0 as int;
        let j = choose|j: int| 0 <= j < rest.len() && (#[trigger] rest[j]).usable
            && rest[j].start <= f && f + (PAGE_SIZE as int) <= rest[j].end;
        assert(regions[j + 1] == rest[j]);
    }
}

proof fn lemma_nth_frames_differ(regions: Seq<MemoryRegion>, a: nat, b: nat)
    requires
        map_wf(regions),
        a < b,
        nth_frame(regions, a) is Some,
        nth_frame(regions, b) is Some,
    ensures
        nth_frame(regions, a)->0 != nth_frame(regions, b)->0,
    decreases regions.len(),
{
    let p = PAGE_SIZE as int;
    let c = frame_count(regions[0]);
    let rest = regions.drop_first();
    if b < c {
        lemma_frame_in_region(regions[0], a as int);
        lemma_frame_in_region(regions[0], b as int);
        assert(a * p < b * p) by (nonlinear_arith)
            requires a < b, p > 0;
    } else {
        assert(map_wf(rest)) by {
            assert forall|i: int, j: int| 0 <= i < j < rest.len() && (#[trigger] rest[i]).usable && (#[trigger] rest[j]).usable
                implies rest[i].end <= rest[j].start || rest[j].end <= rest[i].start by {
                assert(rest[i] == regions[i + 1] && rest[j] == regions[j + 1]);
            }
        }
        if a < c {
            lemma_frame_in_region(regions[0], a as int);
            lemma_nth_frame_in_map(rest, (b - c) as nat);
            let fb = nth_frame(rest, (b - c) as nat)->0 as int;
            let j = choose|j: int| 0 <= j < rest.len() && (#[trigger] rest[j]).usable
                && rest[j].start <= fb && fb + p <= rest[j].end;
            assert(regions[j + 1] == rest[j]);
            assert(regions[0].end <= regions[j + 1].start || regions[j + 1].end <= regions[0].start);
        } else {
            lemma_nth_frames_differ(rest, (a - c) as nat, (b - c) as nat);
        }
    }
}

/// Frame monotonicity: the frames of a memory map whose usable regions do
/// not overlap are all different, and each lies wholly inside a usable
/// region, starting on a frame boundary.
pub proof fn lemma_frames_distinct(regions: Seq<MemoryRegion>, a: nat, b: nat)
    requires
        map_wf(regions),
        a != b,
        nth_frame(regions, a) is Some,
        nth_frame(regions, b) is Some,
    ensures
        nth_frame(regions, a) != nth_frame(regions, b),
        in_usable_region(regions, nth_frame(regions, a)->0 as int),
        in_usable_region(regions, nth_frame(regions, b)->0 as int),
{
    lemma_nth_frame_in_map(regions, a);
    lemma_nth_frame_in_map(regions, b);
    if a < b {
        lemma_nth_frames_differ(regions, a, b);
    } else {
        lemma_nth_frames_differ(regions, b, a);
    }
}

impl BootInfoFrameAllocator {
    /// A frame source over `memory_map`, nothing handed out yet; `None`
    /// where the map has more than `MAX_REGIONS` regions.
    pub fn new(memory_map: &[MemoryRegion]) -> (r: Option<Self>)
        ensures
            r is Some <==> memory_map@.len() <= MAX_REGIONS,
            r matches Some(a) ==> a@ == (memory_map@, 0u64),
    {
        if memory_map.len() > MAX_REGIONS {
            return None;
        }
        let mut regions = [MemoryRegion { start: 0, end: 0, usable: false }; MAX_REGIONS];
        let mut i: usize = 0;
        while i < memory_map.len()
            invariant
                memory_map@.len() <= MAX_REGIONS,
                i <= memory_map@.len(),
                regions@.len() == MAX_REGIONS,
                regions@.subrange(0, i as int) == memory_map@.subrange(0, i as int),
            decreases memory_map@.len() - i,
        {
            regions[i] = memory_map[i];
            i += 1;
            assert(regions@.subrange(0, i as int) =~= memory_map@.subrange(0, i as int));
        }
        assert(memory_map@.subrange(0, i as int) =~= memory_map@);
        Some(BootInfoFrameAllocator { memory_map: regions, len: i, next: 0 })
    }

    /// A frame source with no memory at all: it never hands out a frame.
    pub fn empty() -> (r: Self)
        ensures
            r@ == (Seq::<MemoryRegion>::empty(), 0u64),
    {
        let r = BootInfoFrameAllocator {
            memory_map: [MemoryRegion { start: 0, end: 0, usable: false }; MAX_REGIONS],
            len: 0,
            next: 0,
        };
        assert(r@.0 =~= Seq::<MemoryRegion>::empty());
        r
    }

    /// The next frame: frame number `next` of the usable regions, or `None`
    /// once they are used up. The count moves on either way, so that a
    /// used-up source stays used up. A frame handed out lies wholly inside a
    /// usable region and, where the usable regions do not overlap, differs
    /// from every frame handed out before.
    pub fn allocate_frame(&mut self) -> (r: Option<u64>)
        ensures
            r == nth_frame(old(self)@.0, old(self)@.1 as nat),
            final(self)@.0 == old(self)@.0,
            final(self)@.1 == (if old(self)@.1 == u64::MAX {
                u64::MAX
            } else {
                (old(self)@.1 + 1) as u64
            }),
            r matches Some(f) ==> in_usable_region(old(self)@.0, f as int),
            r is Some && map_wf(old(self)@.0) ==> forall|k: nat| k < old(self)@.1
                ==> #[trigger] nth_frame(old(self)@.0, k) != r,
    {
        proof {
            use_type_invariant(&*self);
        }
        let frame = self.unused_frame(self.next);
        proof {
            if frame is Some {
                lemma_nth_frame_in_map(self@.0, self.next as nat);
                if map_wf(self@.0) {
                    assert forall|k: nat| k < self.next implies #[trigger] nth_frame(self@.0, k) != frame by {
                        if nth_frame(self@.0, k) is Some {
                            lemma_nth_frames_differ(self@.0, k, self.next as nat);
                        }
                    }
                }
            }
        }
        self.next = self.next.saturating_add(1);
        frame
    }

    /// Frame `n` of the usable regions, if there are that many.
    fn unused_frame(&self, n: u64) -> (r: Option<u64>)
        ensures
            r == nth_frame(self@.0, n as nat),
    {
        proof {
            use_type_invariant(self);
        }
        let ghost map = self@.0;
        let mut rem = n;
        let mut i: usize = 0;
        assert(map.subrange(0, map.len() as int) =~= map);
        while i < self.len
            invariant
                self.len <= MAX_REGIONS,
                map == self.memory_map@.subrange(0, self.len as int),
                i <= self.len,
                nth_frame(map, n as nat) == nth_frame(map.subrange(i as int, map.len() as int), rem as nat),
            decreases self.len - i,
        {
            let ghost rest = map.subrange(i as int, map.len() as int);
            let region = self.memory_map[i];
            assert(rest[0] == region) by {
                assert(map[i as int] == self.memory_map@[i as int]);
            }
            proof {
                lemma_align_up(region.start as int, PAGE_SIZE as int);
                lemma_page_base(region.end as int);
            }
            let hi = region.end - region.end % PAGE_SIZE;
            if region.usable && region.start <= hi {
                proof {
                    lemma_align_up_below(region.start as int, hi as int);
                }
                let lo = if region.start % PAGE_SIZE == 0 {
                    region.start
                } else {
                    region.start - region.start % PAGE_SIZE + PAGE_SIZE
                };
                if lo < hi {
                    let count = (hi - lo) / PAGE_SIZE;
                    assert(count == frame_count(region));
                    if rem < count {
                        proof {
                            lemma_frame_in_region(region, rem as int);
                        }
                        let frame = lo + rem * PAGE_SIZE;
                        assert(nth_frame(rest, rem as nat) == Some(frame));
                        return Some(frame);
                    }
                    rem = rem - count;
                }
            }
            assert(rest.drop_first() =~= map.subrange(i as int + 1, map.len() as int));
            i += 1;
        }
        assert(map.subrange(i as int, map.len() as int).len() == 0);
        None
    }
}

} // verus!
