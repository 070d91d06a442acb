use philos::acpi::{Handler, RegionMapping, WINDOW_END, WINDOW_START};
use philos::paging::PageRange;

#[test]
fn reservations_are_page_runs_that_do_not_overlap() {
    let (r1, n1) = Handler::page_range_for_size(0, 1).unwrap();
    assert_eq!(r1, PageRange { start: WINDOW_START, count: 1 });
    assert_eq!(n1, 4096);
    let (r2, n2) = Handler::page_range_for_size(n1, 4097).unwrap();
    assert_eq!(r2, PageRange { start: WINDOW_START + 4096, count: 2 });
    assert_eq!(n2, 3 * 4096);
    assert!(r1.start + r1.count * 4096 <= r2.start);
    let (r3, n3) = Handler::page_range_for_size(n2, 8192).unwrap();
    assert_eq!(r3, PageRange { start: WINDOW_START + 3 * 4096, count: 2 });
    assert_eq!(n3, 5 * 4096);
}

#[test]
fn empty_reservation_keeps_cursor() {
    let (r, n) = Handler::page_range_for_size(8192, 0).unwrap();
    assert_eq!(r.count, 0);
    assert_eq!(n, 8192);
}

#[test]
fn reservation_past_window_fails() {
    let len = WINDOW_END - WINDOW_START;
    assert_eq!(Handler::page_range_for_size(len, 1), None);
    assert_eq!(Handler::page_range_for_size(len + 4096, 0), None);
    assert_eq!(Handler::page_range_for_size(0, len + 1), None);
    let (r, n) = Handler::page_range_for_size(len - 4096, 4096).unwrap();
    assert_eq!(r, PageRange { start: WINDOW_END - 4096, count: 1 });
    assert_eq!(n, len);
}

fn translate(m: &RegionMapping, v: u64) -> Option<u64> {
    let page = v - v % 4096;
    m.page_frame_pairs()
        .iter()
        .find(|(p, _)| *p == page)
        .map(|(_, f)| f + v % 4096)
}

#[test]
fn mapping_reaches_requested_bytes() {
    let phys: u64 = 0x1ff0;
    let size: u64 = 0x20;
    let frames = Handler::frame_span(phys, size, 8);
    assert_eq!(frames, PageRange { start: 0x1000, count: 2 });
    let (window, _) = Handler::page_range_for_size(0, frames.count * 4096).unwrap();
    let m = Handler::map_physical_region(phys, size, 8, window);
    assert_eq!(m.physical_start, phys);
    assert_eq!(m.virtual_start, WINDOW_START + 0xff0);
    assert_eq!(m.region_length, 8192);
    assert_eq!(m.mapped_length, 8192);
    assert_eq!(
        m.page_frame_pairs(),
        vec![(WINDOW_START, 0x1000), (WINDOW_START + 4096, 0x2000)]
    );
    for i in 0..size {
        assert_eq!(translate(&m, m.virtual_start + i), Some(phys + i));
    }
    assert_eq!(Handler::unmap_physical_region(&m), m.pages);
}

#[test]
fn mapping_spans_at_least_the_value() {
    let frames = Handler::frame_span(0x5000, 4, 36);
    assert_eq!(frames, PageRange { start: 0x5000, count: 1 });
    let frames = Handler::frame_span(0x5ff0, 4, 36);
    assert_eq!(frames, PageRange { start: 0x5000, count: 2 });
}
