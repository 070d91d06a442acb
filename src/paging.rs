//! Page-granular address arithmetic: 4 KiB pages and frames, and runs of
//! consecutive ones.
use vstd::prelude::*;

verus! {

/// Bytes in a page or a frame.
pub const PAGE_SIZE: u64 = 4096;

/// Start of the page (or frame) that contains address `a`.
pub open spec fn page_base(a: int) -> int {
    a - a % (PAGE_SIZE as int)
}

/// Number of pages that `len` bytes from address `a` touch.
pub open spec fn pages_touched(a: int, len: int) -> int {
    if len == 0 {
        0
    } else {
        (a % (PAGE_SIZE as int) + len + (PAGE_SIZE as int) - 1) / (PAGE_SIZE as int)
    }
}

/// `count` consecutive pages (or frames), the first at `start`.
#[derive(Clone, Copy, Debug, PartialEq, Eq, Structural)]
pub struct PageRange {
    pub start: u64,
    pub count: u64,
}

impl PageRange {
    /// First address past the range.
    pub open spec fn end(self) -> int {
        self.start + self.count * (PAGE_SIZE as int)
    }

    /// Address of page `i` of the range.
    pub open spec fn page(self, i: int) -> int {
        self.start + i * (PAGE_SIZE as int)
    }

    /// Page-aligned and inside the address space.
    pub open spec fn wf(self) -> bool {
        &&& self.start as int % (PAGE_SIZE as int) == 0
        &&& self.end() <= u64::MAX
    }

    /// The pages that `len` bytes from address `a` touch.
    pub open spec fn covering(a: int, len: int) -> PageRange {
        PageRange { start: page_base(a) as u64, count: pages_touched(a, len) as u64 }
    }

    /// Bytes that the range spans.
    pub fn size_bytes(&self) -> (r: u64)
        requires
            self.wf(),
        ensures
            r == self.count * PAGE_SIZE,
    {
        proof {
            assert(self.count * PAGE_SIZE <= self.end()) by (nonlinear_arith)
                requires self.start >= 0, self.end() == self.start + self.count * (PAGE_SIZE as int);
        }
        self.count * PAGE_SIZE
    }

    /// Address of page `i` of the range.
    pub fn page_at(&self, i: u64) -> (r: u64)
        requires
            self.wf(),
            i < self.count,
        ensures
            r == self.page(i as int),
    {
        proof {
            assert(i * PAGE_SIZE < self.count * PAGE_SIZE) by (nonlinear_arith)
                requires i < self.count;
        }
        self.start + i * PAGE_SIZE
    }
}

pub proof fn lemma_page_base(a: int)
    requires
        a >= 0,
    ensures
        page_base(a) % (PAGE_SIZE as int) == 0,
        a - (PAGE_SIZE as int) < page_base(a) <= a,
        a % (PAGE_SIZE as int) == 0 ==> page_base(a) == a,
{
    vstd::arithmetic::div_mod::lemma_fundamental_div_mod(a, PAGE_SIZE as int);
    vstd::arithmetic::div_mod::lemma_mod_multiples_basic(a / (PAGE_SIZE as int), PAGE_SIZE as int);
}

/// The pages touched cover the bytes: they reach at least `len` bytes past
/// `a`, and less than a page further.
pub proof fn lemma_pages_touched(a: int, len: int)
    requires
        a >= 0,
        len >= 0,
    ensures
        pages_touched(a, len) >= 0,
        len > 0 ==> page_base(a) + pages_touched(a, len) * (PAGE_SIZE as int) >= a + len,
        len > 0 ==> page_base(a) + pages_touched(a, len) * (PAGE_SIZE as int) < a + len + (PAGE_SIZE as int),
        pages_touched(a, len) * (PAGE_SIZE as int) >= len,
{
    let p = PAGE_SIZE as int;
    lemma_page_base(a);
    if len > 0 {
        let x = a % p + len + p - 1;
        vstd::arithmetic::div_mod::lemma_fundamental_div_mod(x, p);
        let q = x / p;
        assert(q * p == p * q) by (nonlinear_arith);
        assert(q >= 0) by (nonlinear_arith)
            requires x >= 0, p > 0, q == x / p;
    }
}

/// The pages (or frames) that `len` bytes from address `a` touch.
pub fn covering(a: u64, len: u64) -> (r: PageRange)
    requires
        a + len + PAGE_SIZE <= u64::MAX,
    ensures
        r == PageRange::covering(a as int, len as int),
        r.wf(),
        len > 0 ==> r.end() >= a + len,
        r.count * PAGE_SIZE >= len,
{
    proof {
        lemma_page_base(a as int);
        lemma_pages_touched(a as int, len as int);
    }
    let in_page = a % PAGE_SIZE;
    let count = if len == 0 {
        0
    } else {
        (in_page + len + PAGE_SIZE - 1) / PAGE_SIZE
    };
    PageRange { start: a - in_page, count }
}

} // verus!
