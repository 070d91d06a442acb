use philos::interrupts::{InterruptIndex, PIC1_OFFSET, PIC2_OFFSET};
use philos::qemu::ExitCode;
use philos::vga_buffer::{Color, ColorCode, VgaChar, Writer, BUFFER_HEIGHT, BUFFER_WIDTH};

fn cell(w: &Writer, row: usize, col: usize) -> u8 {
    w.char_at(row, col).ascii_char
}

fn writer() -> Writer {
    Writer::new(ColorCode::new(Color::LightGray, Color::Black))
}

#[test]
fn color_code_packs_background_and_foreground() {
    assert_eq!(ColorCode::new(Color::LightGray, Color::Black).0, 0x07);
    assert_eq!(ColorCode::new(Color::White, Color::Blue).0, 0x1f);
    assert_eq!(ColorCode::new(Color::Yellow, Color::Red).0, 0x4e);
}

#[test]
fn write_u8_fills_bottom_line() {
    let mut w = writer();
    w.write_u8(b'a');
    w.write_u8(b'b');
    assert_eq!(cell(&w, BUFFER_HEIGHT - 1, 0), b'a');
    assert_eq!(cell(&w, BUFFER_HEIGHT - 1, 1), b'b');
    assert_eq!(cell(&w, BUFFER_HEIGHT - 1, 2), b' ');
    assert_eq!(w.column(), 2);
    assert_eq!(
        w.char_at(BUFFER_HEIGHT - 1, 0),
        VgaChar { ascii_char: b'a', color_code: ColorCode(0x07) }
    );
}

#[test]
fn newline_scrolls_up() {
    let mut w = writer();
    w.write_str("ab\ncd");
    assert_eq!(cell(&w, BUFFER_HEIGHT - 2, 0), b'a');
    assert_eq!(cell(&w, BUFFER_HEIGHT - 2, 1), b'b');
    assert_eq!(cell(&w, BUFFER_HEIGHT - 1, 0), b'c');
    assert_eq!(cell(&w, BUFFER_HEIGHT - 1, 1), b'd');
    assert_eq!(w.column(), 2);
}

#[test]
fn full_line_wraps() {
    let mut w = writer();
    let line: String = std::iter::repeat('x').take(BUFFER_WIDTH).collect();
    w.write_str(&line);
    assert_eq!(w.column(), BUFFER_WIDTH);
    w.write_u8(b'y');
    assert_eq!(cell(&w, BUFFER_HEIGHT - 2, BUFFER_WIDTH - 1), b'x');
    assert_eq!(cell(&w, BUFFER_HEIGHT - 1, 0), b'y');
    assert_eq!(w.column(), 1);
}

#[test]
fn unprintable_bytes_are_replaced() {
    let mut w = writer();
    w.write_str("a\u{e9}\tb");
    assert_eq!(cell(&w, BUFFER_HEIGHT - 1, 0), b'a');
    assert_eq!(cell(&w, BUFFER_HEIGHT - 1, 1), 0xfe);
    assert_eq!(cell(&w, BUFFER_HEIGHT - 1, 2), 0xfe);
    assert_eq!(cell(&w, BUFFER_HEIGHT - 1, 3), 0xfe);
    assert_eq!(cell(&w, BUFFER_HEIGHT - 1, 4), b'b');
}

#[test]
fn top_line_is_lost_on_scroll() {
    let mut w = writer();
    w.write_str("top");
    for _ in 0..BUFFER_HEIGHT {
        w.write_u8(b'\n');
    }
    for row in 0..BUFFER_HEIGHT {
        for col in 0..BUFFER_WIDTH {
            assert_eq!(cell(&w, row, col), b' ');
        }
    }
}

#[test]
fn exit_codes() {
    assert_eq!(ExitCode::Success.code(), 0x10);
    assert_eq!(ExitCode::Failure.code(), 0x11);
}

#[test]
fn interrupt_vectors() {
    assert_eq!(InterruptIndex::Timer.as_u8(), PIC1_OFFSET);
    assert_eq!(InterruptIndex::Keyboard.as_u8(), 33);
    assert_eq!(PIC2_OFFSET, PIC1_OFFSET + 8);
}
