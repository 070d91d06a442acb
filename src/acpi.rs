//! On-demand mapping of physical regions (firmware tables and the like)
//! into a window of kernel virtual space.
//!
//! The window is handed out by a cursor that only moves forward: a
//! reservation rounds the request up to whole pages at the cursor and moves
//! the cursor past them. Whoever holds the cursor publishes the new value
//! with a compare-and-swap and retries from the fresh value if another
//! reservation came first; `Handler::page_range_for_size` is one such try.
use vstd::prelude::*;
use crate::allocator::HEAP_START;
use crate::paging::{
    PAGE_SIZE, PageRange, covering, lemma_page_base, lemma_pages_touched, page_base,
    pages_touched,
};

verus! {

/// Start of the on-demand mapping window (virtual address).
pub const WINDOW_START: u64 = 0x3333_3333_0000;

/// End of the on-demand mapping window: the heap window starts there.
pub const WINDOW_END: u64 = HEAP_START;

/// Physical addresses stay below 2^52.
pub const PHYS_ADDR_LIMIT: u64 = 0x10_0000_0000_0000;

/// One try at reserving `size` bytes of the window at cursor `offset`: the
/// pages that the bytes from `WINDOW_START + offset` touch, and the cursor
/// past them; `None` where they would leave the window.
pub open spec fn reserve_spec(offset: int, size: int) -> Option<(PageRange, u64)> {
    if offset > WINDOW_END - WINDOW_START {
        None
    } else {
        let v = WINDOW_START + offset;
        let count = pages_touched(v, size);
        if page_base(v) + count * (PAGE_SIZE as int) > WINDOW_END {
            None
        } else {
            Some((PageRange::covering(v, size), (offset + count * (PAGE_SIZE as int)) as u64))
        }
    }
}

/// Bytes that a mapping of `size` bytes for a value of `type_size` bytes
/// spans: never less than the value itself.
pub open spec fn actual_size(size: int, type_size: int) -> int {
    if size >= type_size {
        size
    } else {
        type_size
    }
}

/// A physical region mapped into the window.
#[derive(Clone, Copy, Debug, PartialEq, Eq, Structural)]
pub struct RegionMapping {
    /// The physical address that was asked for.
    pub physical_start: u64,
    /// Virtual address of that same byte.
    pub virtual_start: u64,
    /// Bytes of the frames that hold the region.
    pub region_length: u64,
    /// Bytes of the window's pages that map them.
    pub mapped_length: u64,
    /// The window's pages, in order.
    pub pages: PageRange,
    /// The frames mapped to them, in the same order.
    pub frames: PageRange,
}

/// The mapping of `size` bytes (at least `type_size`) from
/// `physical_address` into the window pages `window`: page `k` of the window
/// maps frame `k` of the frames that hold the bytes, and the virtual start
/// points at the requested byte itself, not at its frame.
pub open spec fn map_spec(physical_address: int, size: int, type_size: int, window: PageRange) -> RegionMapping {
    let frames = PageRange::covering(physical_address, actual_size(size, type_size));
    RegionMapping {
        physical_start: physical_address as u64,
        virtual_start: (window.start + (physical_address - frames.start)) as u64,
        region_length: (frames.count * PAGE_SIZE) as u64,
        mapped_length: (window.count * PAGE_SIZE) as u64,
        pages: window,
        frames,
    }
}

/// The page-table entries that a mapping installs: page `k` of its pages
/// to frame `k` of its frames.
pub open spec fn installed(m: RegionMapping) -> Map<int, int> {
    Map::new(
        |p: int| exists|k: int| 0 <= k < m.pages.count && p == m.pages.page(k),
        |p: int| m.frames.start + (p - m.pages.start),
    )
}

/// The physical address that virtual address `v` reaches through `table`
/// (page to frame), if its page is mapped.
pub open spec fn translate(table: Map<int, int>, v: int) -> Option<int> {
    if table.contains_key(page_base(v)) {
        Some(table[page_base(v)] + v % (PAGE_SIZE as int))
    } else {
        None
    }
}

/// The mapper of physical regions into the on-demand window.
#[derive(Clone, Copy, Debug)]
pub struct Handler;

impl Handler {
    /// One try at reserving `size` bytes of the window at cursor `offset`
    /// (see `reserve_spec`): the pages, and the cursor to publish.
    pub fn page_range_for_size(offset: u64, size: u64) -> (r: Option<(PageRange, u64)>)
        ensures
            r == reserve_spec(offset as int, size as int),
            r matches Some((range, next)) ==> range.wf() && range.end() <= WINDOW_END
                && range.count * PAGE_SIZE >= size && next >= offset,
            r matches Some((range, next)) ==> (offset as int % (PAGE_SIZE as int) == 0 && size as int % (PAGE_SIZE as int) == 0
                ==> range.start == WINDOW_START + offset && range.count * PAGE_SIZE == size),
    {
        if offset > WINDOW_END - WINDOW_START {
            return None;
        }
        let virt_start = WINDOW_START + offset;
        proof {
            lemma_page_base(virt_start as int);
            lemma_pages_touched(virt_start as int, size as int);
        }
        if size > WINDOW_END - virt_start {
            return None;
        }
        let range = covering(virt_start, size);
        proof {
            if offset as int % (PAGE_SIZE as int) == 0 && size as int % (PAGE_SIZE as int) == 0 {
                lemma_whole_pages(offset, size);
            }
        }
        let bytes = range.size_bytes();
        if range.start + bytes > WINDOW_END {
            return None;
        }
        Some((range, offset + bytes))
    }

    /// The frames that hold `size` bytes (at least `type_size`) from
    /// `physical_address`: a window of as many pages is to be reserved for
    /// them.
    pub fn frame_span(physical_address: u64, size: u64, type_size: u64) -> (r: PageRange)
        requires
            physical_address + actual_size(size as int, type_size as int) <= PHYS_ADDR_LIMIT,
        ensures
            r == PageRange::covering(physical_address as int, actual_size(size as int, type_size as int)),
            r.wf(),
    {
        let actual = if size >= type_size { size } else { type_size };
        covering(physical_address, actual)
    }

    /// Maps `size` bytes (at least `type_size`) from `physical_address` into
    /// `window`, as reserved for them (see `map_spec`).
    pub fn map_physical_region(physical_address: u64, size: u64, type_size: u64, window: PageRange) -> (r: RegionMapping)
        requires
            physical_address + actual_size(size as int, type_size as int) <= PHYS_ADDR_LIMIT,
            window.wf(),
            window.count == PageRange::covering(physical_address as int, actual_size(size as int, type_size as int)).count,
        ensures
            r == map_spec(physical_address as int, size as int, type_size as int, window),
            r.wf(),
    {
        let frames = Self::frame_span(physical_address, size, type_size);
        proof {
            lemma_page_base(physical_address as int);
        }
        let region_length = frames.size_bytes();
        let mapped_length = window.size_bytes();
        proof {
            let q = window.start as int / (PAGE_SIZE as int);
            vstd::arithmetic::div_mod::lemma_fundamental_div_mod(window.start as int, PAGE_SIZE as int);
            assert(window.start + PAGE_SIZE - 1 <= u64::MAX) by (nonlinear_arith)
                requires
                    window.start == 4096 * q,
                    window.start <= u64::MAX,
            ;
        }
        RegionMapping {
            physical_start: physical_address,
            virtual_start: window.start + (physical_address - frames.start),
            region_length,
            mapped_length,
            pages: window,
            frames,
        }
    }

    /// The pages to unmap for a mapping whose virtual start and mapped
    /// length are given: those from the page of the virtual start that the
    /// mapped length spans.
    pub fn pages_to_unmap(virtual_start: u64, mapped_length: u64) -> (r: PageRange)
        requires
            virtual_start + mapped_length + PAGE_SIZE <= u64::MAX,
        ensures
            r == PageRange::covering(page_base(virtual_start as int), mapped_length as int),
    {
        proof {
            lemma_page_base(virtual_start as int);
        }
        let page_start = virtual_start - virtual_start % PAGE_SIZE;
        covering(page_start, mapped_length)
    }

    /// The pages to unmap for `region` (see `pages_to_unmap`). For a mapping
    /// made by `map_physical_region` these are exactly the pages it mapped;
    /// the window stays reserved.
    pub fn unmap_physical_region(region: &RegionMapping) -> (r: PageRange)
        requires
            region.virtual_start + region.mapped_length + PAGE_SIZE <= u64::MAX,
        ensures
            r == PageRange::covering(page_base(region.virtual_start as int), region.mapped_length as int),
            region.wf() ==> r == region.pages,
    {
        let r = Self::pages_to_unmap(region.virtual_start, region.mapped_length);
        proof {
            if region.wf() {
                lemma_unmap_range(*region);
            }
        }
        r
    }
}

impl RegionMapping {
    /// What `map_physical_region` makes: as many pages as frames, both
    /// page-aligned runs, lengths that match them, and the virtual start at
    /// the same offset in the first page as the physical start in the first
    /// frame.
    pub open spec fn wf(self) -> bool {
        &&& self.pages.wf()
        &&& self.frames.wf()
        &&& self.pages.count == self.frames.count
        &&& self.mapped_length == self.pages.count * PAGE_SIZE
        &&& self.region_length == self.frames.count * PAGE_SIZE
        &&& self.frames.start == page_base(self.physical_start as int)
        &&& self.virtual_start == self.pages.start + (self.physical_start - self.frames.start)
    }

    /// The (page, frame) pairs to install, in order.
    pub fn page_frame_pairs(&self) -> (r: Vec<(u64, u64)>)
        requires
            self.wf(),
        ensures
            r@.len() == self.pages.count,
            forall|k: int| 0 <= k < r@.len() ==> (#[trigger] r@[k]) == (self.pages.page(k) as u64, self.frames.page(k) as u64),
            forall|k: int| 0 <= k < r@.len() ==> installed(*self)[r@[k].0 as int] == (#[trigger] r@[k]).1,
    {
        let mut r: Vec<(u64, u64)> = Vec::new();
        let mut k: u64 = 0;
        while k < self.pages.count
            invariant
                self.wf(),
                k <= self.pages.count,
                r@.len() == k,
                forall|j: int| 0 <= j < k ==> (#[trigger] r@[j]) == (self.pages.page(j) as u64, self.frames.page(j) as u64),
            decreases self.pages.count - k,
        {
            let page = self.pages.page_at(k);
            let frame = self.frames.page_at(k);
            r.push((page, frame));
            k += 1;
        }
        proof {
            assert forall|j: int| 0 <= j < r@.len() implies installed(*self)[r@[j].0 as int] == (#[trigger] r@[j]).1 by {
                assert(installed(*self).dom().contains(self.pages.page(j)));
            }
        }
        r
    }
}

/// Disjointness: two reservations, the second made at a cursor no earlier
/// than the one the first published, get page runs that do not overlap, the
/// second lying wholly after the first; each spans at least the bytes asked
/// for, and the cursor stays page-aligned.
pub proof fn lemma_reservations_disjoint(o1: u64, s1: u64, o2: u64, s2: u64)
    requires
        o1 as int % (PAGE_SIZE as int) == 0,
        o2 as int % (PAGE_SIZE as int) == 0,
        reserve_spec(o1 as int, s1 as int) is Some,
        o2 >= (reserve_spec(o1 as int, s1 as int)->0).1,
        reserve_spec(o2 as int, s2 as int) is Some,
    ensures
        ({
            let (r1, n1) = reserve_spec(o1 as int, s1 as int)->0;
            let (r2, n2) = reserve_spec(o2 as int, s2 as int)->0;
            &&& r1.end() <= r2.start
            &&& r1.count * PAGE_SIZE >= s1
            &&& r2.count * PAGE_SIZE >= s2
            &&& n1 as int % (PAGE_SIZE as int) == 0
            &&& n2 as int % (PAGE_SIZE as int) == 0
        }),
{
    let p = PAGE_SIZE as int;
    let v1 = WINDOW_START + o1;
    let v2 = WINDOW_START + o2;
    lemma_pages_touched(v1, s1 as int);
    lemma_pages_touched(v2, s2 as int);
    assert(WINDOW_START as int % p == 0);
    vstd::arithmetic::div_mod::lemma_mod_adds(WINDOW_START as int, o1 as int, p);
    vstd::arithmetic::div_mod::lemma_mod_adds(WINDOW_START as int, o2 as int, p);
    lemma_page_base(v1);
    lemma_page_base(v2);
    let c1 = pages_touched(v1, s1 as int);
    let c2 = pages_touched(v2, s2 as int);
    vstd::arithmetic::div_mod::lemma_mod_multiples_basic(c1, p);
    vstd::arithmetic::div_mod::lemma_mod_multiples_basic(c2, p);
    vstd::arithmetic::div_mod::lemma_mod_adds(o1 as int, c1 * p, p);
    vstd::arithmetic::div_mod::lemma_mod_adds(o2 as int, c2 * p, p);
}

/// A run of tries as a compare-and-swap loop lets them succeed: try `k`
/// reserves `sizes[k]` at cursor `cursors[k]`, succeeds, and publishes
/// `cursors[k + 1]`.
pub open spec fn reservation_chain(cursors: Seq<u64>, sizes: Seq<u64>) -> bool {
    &&& cursors.len() == sizes.len() + 1
    &&& forall|k: int| 0 <= k < sizes.len() ==> (#[trigger] reserve_spec(cursors[k] as int, sizes[k] as int)) is Some
        && (reserve_spec(cursors[k] as int, sizes[k] as int)->0).1 == cursors[k + 1]
}

proof fn lemma_chain_cursors(cursors: Seq<u64>, sizes: Seq<u64>, i: int, j: int)
    requires
        reservation_chain(cursors, sizes),
        cursors[0] as int % (PAGE_SIZE as int) == 0,
        0 <= i <= j <= sizes.len(),
    ensures
        cursors[j] as int % (PAGE_SIZE as int) == 0,
        cursors[i] <= cursors[j],
    decreases j,
{
    if j > 0 {
        lemma_chain_cursors(cursors, sizes, if i == j { j - 1 } else { i }, j - 1);
        assert(reserve_spec(cursors[j - 1] as int, sizes[j - 1] as int) is Some);
        let v = WINDOW_START + cursors[j - 1];
        let c = pages_touched(v, sizes[j - 1] as int);
        lemma_pages_touched(v, sizes[j - 1] as int);
        vstd::arithmetic::div_mod::lemma_mod_multiples_basic(c, PAGE_SIZE as int);
        vstd::arithmetic::div_mod::lemma_mod_adds(cursors[j - 1] as int, c * (PAGE_SIZE as int), PAGE_SIZE as int);
        assert(c * (PAGE_SIZE as int) >= 0) by (nonlinear_arith)
            requires c >= 0;
    }
}

/// Disjointness over any run of successful tries, in the order their
/// compare-and-swaps succeeded: no two reserved page runs overlap, and each
/// spans at least the bytes asked for.
pub proof fn lemma_reservation_chain_disjoint(cursors: Seq<u64>, sizes: Seq<u64>)
    requires
        reservation_chain(cursors, sizes),
        cursors[0] as int % (PAGE_SIZE as int) == 0,
    ensures
        forall|i: int, j: int| 0 <= i < j < sizes.len() ==>
            (#[trigger] reserve_spec(cursors[i] as int, sizes[i] as int)->0).0.end()
                <= (#[trigger] reserve_spec(cursors[j] as int, sizes[j] as int)->0).0.start,
        forall|k: int| 0 <= k < sizes.len() ==>
            (#[trigger] reserve_spec(cursors[k] as int, sizes[k] as int)->0).0.count * PAGE_SIZE >= sizes[k],
{
    assert forall|i: int, j: int| 0 <= i < j < sizes.len() implies
        (#[trigger] reserve_spec(cursors[i] as int, sizes[i] as int)->0).0.end()
            <= (#[trigger] reserve_spec(cursors[j] as int, sizes[j] as int)->0).0.start by {
        lemma_chain_cursors(cursors, sizes, i, i);
        lemma_chain_cursors(cursors, sizes, i + 1, j);
        assert(reserve_spec(cursors[i] as int, sizes[i] as int) is Some);
        assert(reserve_spec(cursors[j] as int, sizes[j] as int) is Some);
        lemma_reservations_disjoint(cursors[i], sizes[i], cursors[j], sizes[j]);
    }
    assert forall|k: int| 0 <= k < sizes.len() implies
        (#[trigger] reserve_spec(cursors[k] as int, sizes[k] as int)->0).0.count * PAGE_SIZE >= sizes[k] by {
        lemma_chain_cursors(cursors, sizes, k, k);
        assert(reserve_spec(cursors[k] as int, sizes[k] as int) is Some);
        lemma_pages_touched(WINDOW_START + cursors[k], sizes[k] as int);
    }
}

/// Round trip: through the entries that a mapping installs, each of the
/// bytes asked for is reached from the mapping's virtual start at the same
/// distance as from the physical address asked for.
pub proof fn lemma_mapping_round_trip(physical_address: u64, size: u64, type_size: u64, window: PageRange)
    requires
        physical_address + actual_size(size as int, type_size as int) <= PHYS_ADDR_LIMIT,
        window.wf(),
        window.count == PageRange::covering(physical_address as int, actual_size(size as int, type_size as int)).count,
    ensures
        forall|i: int| 0 <= i < actual_size(size as int, type_size as int) ==> #[trigger] translate(
            installed(map_spec(physical_address as int, size as int, type_size as int, window)),
            map_spec(physical_address as int, size as int, type_size as int, window).virtual_start + i,
        ) == Some(physical_address + i),
{
    let m = map_spec(physical_address as int, size as int, type_size as int, window);
    let n = actual_size(size as int, type_size as int);
    let p = PAGE_SIZE as int;
    lemma_page_base(physical_address as int);
    lemma_pages_touched(physical_address as int, n);
    let q = window.start as int / p;
    vstd::arithmetic::div_mod::lemma_fundamental_div_mod(window.start as int, p);
    assert(window.start + PAGE_SIZE - 1 <= u64::MAX) by (nonlinear_arith)
        requires
            window.start == 4096 * q,
            window.start <= u64::MAX,
    ;
    assert forall|i: int| 0 <= i < n implies #[trigger] translate(installed(m), m.virtual_start + i) == Some(physical_address + i) by {
        let d = physical_address - m.frames.start + i;
        let v = m.virtual_start + i;
        assert(v == window.start + d);
        vstd::arithmetic::div_mod::lemma_fundamental_div_mod(d, p);
        let k = d / p;
        vstd::arithmetic::div_mod::lemma_mod_multiples_vanish(q, d, p);
        assert(window.start + d == p * q + d) by (nonlinear_arith)
            requires window.start == 4096 * q, p == 4096;
        vstd::arithmetic::div_mod::lemma_mod_multiples_basic(q, p);
        assert((p * q + d) % p == d % p) by {
            vstd::arithmetic::div_mod::lemma_mod_multiples_vanish(q, d, p);
        }
        assert(page_base(v) == window.start + k * p) by (nonlinear_arith)
            requires
                v == window.start + d,
                d == p * k + d % p,
                v % p == d % p,
                page_base(v) == v - v % p;
        assert(0 <= k < window.count) by (nonlinear_arith)
            requires
                d >= 0,
                k == d / p,
                p > 0,
                d < window.count * p,
                d == p * k + d % p,
                0 <= d % p < p;
        assert(installed(m).dom().contains(window.page(k)));
    }
}

/// At a page-aligned cursor, a whole number of pages is reserved as
/// exactly that many pages, starting at the cursor.
proof fn lemma_whole_pages(offset: u64, size: u64)
    requires
        offset as int % (PAGE_SIZE as int) == 0,
        size as int % (PAGE_SIZE as int) == 0,
    ensures
        page_base(WINDOW_START + offset) == WINDOW_START + offset,
        pages_touched(WINDOW_START + offset, size as int) * (PAGE_SIZE as int) == size,
{
    let p = PAGE_SIZE as int;
    let v = WINDOW_START + offset;
    assert(WINDOW_START as int % p == 0);
    vstd::arithmetic::div_mod::lemma_mod_adds(WINDOW_START as int, offset as int, p);
    lemma_page_base(v);
    if size > 0 {
        vstd::arithmetic::div_mod::lemma_fundamental_div_mod(size as int, p);
        let c = size as int / p;
        assert(size == p * c);
        vstd::arithmetic::div_mod::lemma_div_multiples_vanish_fancy(c, p - 1, p);
        assert(pages_touched(v, size as int) == (c * p + (p - 1)) / p) by (nonlinear_arith)
            requires
                v % p == 0,
                size == p * c,
                pages_touched(v, size as int) == (v % p + size + p - 1) / p;
    }
}

proof fn lemma_unmap_range(m: RegionMapping)
    requires
        m.wf(),
    ensures
        PageRange::covering(page_base(m.virtual_start as int), m.mapped_length as int) == m.pages,
{
    let p = PAGE_SIZE as int;
    lemma_page_base(m.physical_start as int);
    let off = m.physical_start - m.frames.start;
    vstd::arithmetic::div_mod::lemma_mod_multiples_vanish(m.pages.start as int / p, off, p);
    vstd::arithmetic::div_mod::lemma_fundamental_div_mod(m.pages.start as int, p);
    vstd::arithmetic::div_mod::lemma_small_mod(off as nat, p as nat);
    assert(page_base(m.virtual_start as int) == m.pages.start);
    if m.mapped_length > 0 {
        vstd::arithmetic::div_mod::lemma_div_multiples_vanish_fancy(m.pages.count as int, p - 1, p);
        assert(pages_touched(m.pages.start as int, m.mapped_length as int) == m.pages.count);
    }
}

} // verus!
