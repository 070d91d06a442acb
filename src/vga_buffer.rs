//! Text console: a 25 x 80 screen of coloured characters, written at the
//! bottom line, scrolling up when a line ends or fills.
use vstd::prelude::*;
use vstd::string::StringSliceAdditionalSpecFns;

verus! {

pub const BUFFER_HEIGHT: usize = 25;

pub const BUFFER_WIDTH: usize = 80;

/// Cells on the screen.
pub const BUFFER_CELLS: usize = 2000;

/// Shown in place of a byte that the console cannot print.
pub const REPLACEMENT: u8 = 0xfe;

/// The line break byte, `\n`.
pub const NEWLINE: u8 = 10;

/// The space byte, shown in an empty cell.
pub const SPACE: u8 = 32;

/// The sixteen text-mode colours.
#[derive(Clone, Copy, Debug, PartialEq, Eq, Structural)]
pub enum Color {
    Black,
    Blue,
    Green,
    Cyan,
    Red,
    Magenta,
    Brown,
    LightGray,
    DarkGray,
    LightBlue,
    LightGreen,
    LightCyan,
    LightRed,
    Pink,
    Yellow,
    White,
}

pub open spec fn color_value(c: Color) -> u8 {
    match c {
        Color::Black => 0,
        Color::Blue => 1,
        Color::Green => 2,
        Color::Cyan => 3,
        Color::Red => 4,
        Color::Magenta => 5,
        Color::Brown => 6,
        Color::LightGray => 7,
        Color::DarkGray => 8,
        Color::LightBlue => 9,
        Color::LightGreen => 10,
        Color::LightCyan => 11,
        Color::LightRed => 12,
        Color::Pink => 13,
        Color::Yellow => 14,
        Color::White => 15,
    }
}

impl Color {
    /// The colour's 4-bit hardware number.
    pub fn value(self) -> (r: u8)
        ensures
            r == color_value(self),
            r < 16,
    {
        match self {
            Color::Black => 0,
            Color::Blue => 1,
            Color::Green => 2,
            Color::Cyan => 3,
            Color::Red => 4,
            Color::Magenta => 5,
            Color::Brown => 6,
            Color::LightGray => 7,
            Color::DarkGray => 8,
            Color::LightBlue => 9,
            Color::LightGreen => 10,
            Color::LightCyan => 11,
            Color::LightRed => 12,
            Color::Pink => 13,
            Color::Yellow => 14,
            Color::White => 15,
        }
    }
}

/// Attribute byte of a cell: background in the high four bits, foreground
/// in the low four.
#[derive(Clone, Copy, Debug, PartialEq, Eq, Structural)]
pub struct ColorCode(pub u8);

impl ColorCode {
    pub fn new(fg: Color, bg: Color) -> (r: ColorCode)
        ensures
            r.0 == color_value(bg) * 16 + color_value(fg),
    {
        let f = fg.value();
        let b = bg.value();
        let r = ColorCode((b << 4) | f);
        assert((b << 4) | f == b * 16 + f) by (bit_vector)
            requires b < 16, f < 16;
        r
    }
}

/// One cell of the screen.
#[derive(Clone, Copy, Debug, PartialEq, Eq, Structural)]
pub struct VgaChar {
    pub ascii_char: u8,
    pub color_code: ColorCode,
}

/// The console as plain values: the column of the next character on the
/// bottom line, the colour it is written in, and the cells row by row.
pub struct WriterView {
    pub current_col: int,
    pub color_code: ColorCode,
    pub screen: Seq<VgaChar>,
}

/// An empty cell in colour `c`.
pub open spec fn blank(c: ColorCode) -> VgaChar {
    VgaChar { ascii_char: SPACE, color_code: c }
}

/// The view after a line break: every line moves up one, the top one is
/// lost, the bottom one is blank, and writing starts at its first column.
pub open spec fn new_line_spec(w: WriterView) -> WriterView {
    WriterView {
        current_col: 0,
        color_code: w.color_code,
        screen: Seq::new(
            BUFFER_CELLS as nat,
            |i: int| if i < BUFFER_CELLS - BUFFER_WIDTH { w.screen[i + BUFFER_WIDTH] } else { blank(w.color_code) },
        ),
    }
}

/// The view after byte `b` was written: a line break for `\n`; otherwise
/// the byte goes at the current column of the bottom line, after a line
/// break where that line is full.
pub open spec fn write_u8_spec(w: WriterView, b: u8) -> WriterView {
    if b == NEWLINE {
        new_line_spec(w)
    } else {
        let v = if w.current_col >= BUFFER_WIDTH { new_line_spec(w) } else { w };
        WriterView {
            current_col: v.current_col + 1,
            color_code: v.color_code,
            screen: v.screen.update(
                (BUFFER_HEIGHT - 1) * BUFFER_WIDTH + v.current_col,
                VgaChar { ascii_char: b, color_code: v.color_code },
            ),
        }
    }
}

/// What the console shows for byte `b`: printable ASCII and `\n` as they
/// are, anything else as the replacement glyph.
pub open spec fn shown(b: u8) -> u8 {
    if (0x20 <= b && b <= 0x7e) || b == NEWLINE {
        b
    } else {
        REPLACEMENT
    }
}

/// The view after the bytes `bytes` were written, in order.
pub open spec fn write_bytes_spec(w: WriterView, bytes: Seq<u8>) -> WriterView
    decreases bytes.len(),
{
    if bytes.len() == 0 {
        w
    } else {
        write_u8_spec(write_bytes_spec(w, bytes.drop_last()), shown(bytes.last()))
    }
}

pub open spec fn writer_wf(w: WriterView) -> bool {
    &&& w.screen.len() == BUFFER_CELLS
    &&& 0 <= w.current_col <= BUFFER_WIDTH
}

/// The text console.
pub struct Writer {
    current_col: usize,
    color_code: ColorCode,
    buffer: Vec<VgaChar>,
}

impl View for Writer {
    type V = WriterView;

    closed spec fn view(&self) -> WriterView {
        WriterView { current_col: self.current_col as int, color_code: self.color_code, screen: self.buffer@ }
    }
}

impl Writer {
    pub open spec fn wf(&self) -> bool {
        writer_wf(self@)
    }

    /// A console with a blank screen, writing in `color_code`.
    pub fn new(color_code: ColorCode) -> (r: Writer)
        ensures
            r.wf(),
            r@.current_col == 0,
            r@.color_code == color_code,
            r@.screen == Seq::new(BUFFER_CELLS as nat, |i: int| blank(color_code)),
    {
        let mut buffer: Vec<VgaChar> = Vec::new();
        let mut i: usize = 0;
        while i < BUFFER_CELLS
            invariant
                i <= BUFFER_CELLS,
                buffer@ == Seq::new(i as nat, |j: int| blank(color_code)),
            decreases BUFFER_CELLS - i,
        {
            buffer.push(VgaChar { ascii_char: SPACE, color_code });
            i += 1;
            assert(buffer@ =~= Seq::new(i as nat, |j: int| blank(color_code)));
        }
        Writer { current_col: 0, color_code, buffer }
    }

    /// The cell at `row`, `col`.
    pub fn char_at(&self, row: usize, col: usize) -> (r: VgaChar)
        requires
            self.wf(),
            row < BUFFER_HEIGHT,
            col < BUFFER_WIDTH,
        ensures
            r == self@.screen[row * BUFFER_WIDTH + col],
    {
        assert(row * BUFFER_WIDTH + col < BUFFER_CELLS) by (nonlinear_arith)
            requires row < BUFFER_HEIGHT, col < BUFFER_WIDTH;
        self.buffer[row * BUFFER_WIDTH + col]
    }

    /// Column of the next character on the bottom line.
    pub fn column(&self) -> (r: usize)
        ensures
            r == self@.current_col,
    {
        self.current_col
    }

    /// Writes byte `value` (see `write_u8_spec`).
    pub fn write_u8(&mut self, value: u8)
        requires
            old(self).wf(),
        ensures
            final(self).wf(),
            final(self)@ == write_u8_spec(old(self)@, value),
    {
        if value == NEWLINE {
            self.new_line();
        } else {
            if self.current_col >= BUFFER_WIDTH {
                self.new_line();
            }
            let row = BUFFER_HEIGHT - 1;
            let col = self.current_col;
            let v = VgaChar { ascii_char: value, color_code: self.color_code };
            self.write_at(row, col, v);
            self.current_col = self.current_col + 1;
        }
    }

    /// Writes the bytes of `s`, each printable one as it is and any other
    /// as the replacement glyph (see `write_bytes_spec`).
    pub fn write_str(&mut self, s: &str)
        requires
            old(self).wf(),
        ensures
            final(self).wf(),
            final(self)@ == write_bytes_spec(old(self)@, s.spec_bytes()),
    {
        let bytes = s.as_bytes();
        let mut i: usize = 0;
        while i < bytes.len()
            invariant
                i <= bytes@.len(),
                bytes@ == s.spec_bytes(),
                self.wf(),
                self@ == write_bytes_spec(old(self)@, bytes@.subrange(0, i as int)),
            decreases bytes@.len() - i,
        {
            let b = bytes[i];
            if (0x20 <= b && b <= 0x7e) || b == NEWLINE {
                self.write_u8(b);
            } else {
                self.write_u8(REPLACEMENT);
            }
            proof {
                let done = bytes@.subrange(0, i + 1);
                assert(done.drop_last() =~= bytes@.subrange(0, i as int));
                assert(done.last() == b);
            }
            i += 1;
        }
        assert(bytes@.subrange(0, i as int) =~= bytes@);
    }

    fn write_at(&mut self, row: usize, col: usize, v: VgaChar)
        requires
            old(self).wf(),
            row < BUFFER_HEIGHT,
            col < BUFFER_WIDTH,
        ensures
            final(self)@ == (WriterView { screen: old(self)@.screen.update(row * BUFFER_WIDTH + col, v), ..old(self)@ }),
    {
        assert(row * BUFFER_WIDTH + col < BUFFER_CELLS) by (nonlinear_arith)
            requires row < BUFFER_HEIGHT, col < BUFFER_WIDTH;
        self.buffer.set(row * BUFFER_WIDTH + col, v);
    }

    /// Scrolls every line up by one and starts a blank bottom line (see
    /// `new_line_spec`).
    fn new_line(&mut self)
        requires
            old(self).wf(),
        ensures
            final(self).wf(),
            final(self)@ == new_line_spec(old(self)@),
    {
        let mut i: usize = 0;
        while i < BUFFER_CELLS - BUFFER_WIDTH
            invariant
                i <= BUFFER_CELLS - BUFFER_WIDTH,
                self.buffer@.len() == BUFFER_CELLS,
                self.current_col == old(self).current_col,
                self.color_code == old(self).color_code,
                forall|j: int| 0 <= j < i ==> self.buffer@[j] == old(self)@.screen[j + BUFFER_WIDTH],
                forall|j: int| i <= j < BUFFER_CELLS ==> self.buffer@[j] == old(self)@.screen[j],
            decreases BUFFER_CELLS - BUFFER_WIDTH - i,
        {
            let v = self.buffer[i + BUFFER_WIDTH];
            self.buffer.set(i, v);
            i += 1;
        }
        let clear = VgaChar { ascii_char: SPACE, color_code: self.color_code };
        while i < BUFFER_CELLS
            invariant
                BUFFER_CELLS - BUFFER_WIDTH <= i <= BUFFER_CELLS,
                self.buffer@.len() == BUFFER_CELLS,
                self.current_col == old(self).current_col,
                self.color_code == old(self).color_code,
                clear == blank(self.color_code),
                forall|j: int| 0 <= j < BUFFER_CELLS - BUFFER_WIDTH ==> self.buffer@[j] == old(self)@.screen[j + BUFFER_WIDTH],
                forall|j: int| BUFFER_CELLS - BUFFER_WIDTH <= j < i ==> self.buffer@[j] == blank(self.color_code),
            decreases BUFFER_CELLS - i,
        {
            self.buffer.set(i, clear);
            i += 1;
        }
        self.current_col = 0;
        assert(self@.screen =~= new_line_spec(old(self)@).screen);
    }
}

} // verus!
