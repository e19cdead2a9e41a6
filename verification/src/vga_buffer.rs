//! The text screen: 25 rows of 80 cells, each a character and its colours.
//! Text is written to the last row; a full row or a newline moves every row
//! up by one. The cells are volatile, so that a write to the screen is never
//! optimized away.

use volatile::Volatile;
use vstd::prelude::*;
use vstd::string::StringSliceAdditionalSpecFns;

verus! {

/// The number of rows of the screen.
pub const BUFFER_HEIGHT: usize = 25;

/// The number of cells in a row.
pub const BUFFER_WIDTH: usize = 80;

/// The colours of the text screen.
#[derive(Debug, Clone, Copy, PartialEq, Eq, Structural)]
pub enum Color {
    Black,
    Blue,
    Green,
    Cyan,
    Red,
    Magenta,
    Brown,
    LightGray,
    DarkGray,
    LightBlue,
    LightGreen,
    LightCyan,
    LightRed,
    Pink,
    Yellow,
    White,
}

impl Color {
    /// The number of the colour, 0 to 15.
    pub open spec fn code(self) -> int {
        match self {
            Color::Black => 0,
            Color::Blue => 1,
            Color::Green => 2,
            Color::Cyan => 3,
            Color::Red => 4,
            Color::Magenta => 5,
            Color::Brown => 6,
            Color::LightGray => 7,
            Color::DarkGray => 8,
            Color::LightBlue => 9,
            Color::LightGreen => 10,
            Color::LightCyan => 11,
            Color::LightRed => 12,
            Color::Pink => 13,
            Color::Yellow => 14,
            Color::White => 15,
        }
    }

    /// The number of the colour, 0 to 15.
    pub fn as_u8(self) -> (r: u8)
        ensures
            r == self.code(),
    {
        match self {
            Color::Black => 0,
            Color::Blue => 1,
            Color::Green => 2,
            Color::Cyan => 3,
            Color::Red => 4,
            Color::Magenta => 5,
            Color::Brown => 6,
            Color::LightGray => 7,
            Color::DarkGray => 8,
            Color::LightBlue => 9,
            Color::LightGreen => 10,
            Color::LightCyan => 11,
            Color::LightRed => 12,
            Color::Pink => 13,
            Color::Yellow => 14,
            Color::White => 15,
        }
    }
}

/// The colours of one cell in one byte: the background in the upper four
/// bits, the foreground in the lower four.
#[derive(Debug, Clone, Copy, PartialEq, Eq, Structural)]
pub struct ColorCode(pub u8);

impl ColorCode {
    /// The colour code of `foreground` on `background`.
    pub fn new(foreground: Color, background: Color) -> (r: ColorCode)
        ensures
            r.0 == background.code() * 16 + foreground.code(),
    {
        let b: u8 = background.as_u8();
        let f: u8 = foreground.as_u8();
        assert((b << 4 | f) == b * 16 + f) by (bit_vector)
            requires
                b < 16,
                f < 16,
        ;
        ColorCode(b << 4 | f)
    }
}

/// What one cell shows: a character and its colours.
#[derive(Debug, Clone, Copy, PartialEq, Eq, Structural)]
pub struct ScreenChar {
    pub ascii_character: u8,
    pub color_code: ColorCode,
}

impl ScreenChar {
    /// The cell as the 16 bits that the screen holds: the character in the
    /// lower byte, the colours in the upper one.
    pub open spec fn bits(self) -> u16 {
        ((self.color_code.0 as u16) << 8) | (self.ascii_character as u16)
    }

    /// The cell that the 16 bits `bits` show.
    pub open spec fn of_bits(bits: u16) -> ScreenChar {
        ScreenChar {
            ascii_character: (bits & 0xff) as u8,
            color_code: ColorCode((bits >> 8) as u8),
        }
    }

    /// The cell as the 16 bits that the screen holds.
    pub fn to_bits(self) -> (r: u16)
        ensures
            r == self.bits(),
            ScreenChar::of_bits(r) == self,
    {
        proof {
            lemma_bits_round_trip(self);
        }
        ((self.color_code.0 as u16) << 8) | (self.ascii_character as u16)
    }

    /// The cell that the 16 bits `bits` show.
    pub fn from_bits(bits: u16) -> (r: ScreenChar)
        ensures
            r == ScreenChar::of_bits(bits),
    {
        ScreenChar {
            ascii_character: (bits & 0xff) as u8,
            color_code: ColorCode((bits >> 8) as u8),
        }
    }
}

/// A cell that is packed into 16 bits and unpacked again is the same cell.
pub proof fn lemma_bits_round_trip(c: ScreenChar)
    ensures
        ScreenChar::of_bits(c.bits()) == c,
{
    let a = c.ascii_character;
    let k = c.color_code.0;
    assert(((((k as u16) << 8) | (a as u16)) & 0xff) as u8 == a && ((((k as u16) << 8) | (
    a as u16)) >> 8) as u8 == k) by (bit_vector);
}

/// The screen: its rows from top to bottom, each of its cells from left to
/// right. The cells are volatile.
pub type Buffer = [[Volatile<u16>; BUFFER_WIDTH]; BUFFER_HEIGHT];

/// `volatile::Volatile`, a wrapper around a value that is read and written
/// with volatile accesses. Nothing is known of what is inside but through
/// [`cell_value`].
#[verifier::external_type_specification]
#[verifier::external_body]
#[verifier::reject_recursive_types(T)]
pub struct ExVolatile<T: Copy>(Volatile<T>);

/// The value that a volatile cell contains.
pub uninterp spec fn cell_value(cell: Volatile<u16>) -> u16;

/// `Volatile::read`: returns a copy of the value that the cell contains. It
/// never panics.
#[verifier::external_body]
fn read_cell(cell: &Volatile<u16>) -> (r: u16)
    ensures
        r == cell_value(*cell),
{
    cell.read()
}

/// `Volatile::write`: sets the value that the cell contains to `value`. It
/// never panics.
#[verifier::external_body]
fn write_cell(cell: &mut Volatile<u16>, value: u16)
    ensures
        cell_value(*final(cell)) == value,
{
    cell.write(value)
}

/// What the cells of `buffer` show, row by row.
pub open spec fn rows_of(buffer: Buffer) -> Seq<Seq<ScreenChar>> {
    Seq::new(
        BUFFER_HEIGHT as nat,
        |r: int|
            Seq::new(BUFFER_WIDTH as nat, |c: int| ScreenChar::of_bits(cell_value(buffer[r][c]))),
    )
}

/// A row of spaces in the colours `color`.
pub open spec fn blank_row(color: ColorCode) -> Seq<ScreenChar> {
    Seq::new(BUFFER_WIDTH as nat, |c: int| ScreenChar { ascii_character: 0x20, color_code: color })
}

/// The byte that is shown for `byte`: itself where it is a printable ASCII
/// character or a newline, and a filled box otherwise.
pub open spec fn shown(byte: u8) -> u8 {
    if (0x20 <= byte <= 0x7e) || byte == 0x0a {
        byte
    } else {
        0xfe
    }
}

/// What a writer is, as plain mathematics.
pub struct Screen {
    /// The column of the last row that the next character goes to.
    pub column: int,
    /// The colours of what is written.
    pub color: ColorCode,
    /// What the screen shows, row by row from the top.
    pub rows: Seq<Seq<ScreenChar>>,
}

impl Screen {
    /// The invariant of the writer: the screen has its 25 rows of 80 cells,
    /// and the column is on the row or just behind it.
    pub open spec fn wf(self) -> bool {
        &&& 0 <= self.column <= BUFFER_WIDTH
        &&& self.rows.len() == BUFFER_HEIGHT
        &&& forall|r: int| 0 <= r < BUFFER_HEIGHT ==> (#[trigger] self.rows[r]).len() == BUFFER_WIDTH
    }

    /// The screen with row `row` filled with spaces.
    pub open spec fn clear_row(self, row: int) -> Screen {
        Screen { rows: self.rows.update(row, blank_row(self.color)), ..self }
    }

    /// The screen with every row moved up by one: the first row is gone, the
    /// last one is filled with spaces, and the column is 0.
    pub open spec fn new_line(self) -> Screen {
        Screen { column: 0, rows: self.rows.skip(1).push(blank_row(self.color)), ..self }
    }

    /// The screen after `byte` is written. A newline moves the rows up.
    /// Another byte goes to the last row at the column, after the rows have
    /// moved up if that row was full, and the column moves on by one.
    pub open spec fn write_byte(self, byte: u8) -> Screen {
        if byte == 0x0a {
            self.new_line()
        } else {
            let s = if self.column >= BUFFER_WIDTH {
                self.new_line()
            } else {
                self
            };
            let last = BUFFER_HEIGHT - 1;
            Screen {
                column: s.column + 1,
                rows: s.rows.update(
                    last,
                    s.rows[last].update(
                        s.column,
                        ScreenChar { ascii_character: byte, color_code: s.color },
                    ),
                ),
                ..s
            }
        }
    }

    /// The screen after the bytes `bytes` are written one after the other,
    /// each as it is shown.
    pub open spec fn write_string(self, bytes: Seq<u8>) -> Screen
        decreases bytes.len(),
    {
        if bytes.len() == 0 {
            self
        } else {
            self.write_byte(shown(bytes[0])).write_string(bytes.skip(1))
        }
    }
}

/// Writing keeps the invariant of the writer.
pub proof fn lemma_write_byte_wf(s: Screen, byte: u8)
    requires
        s.wf(),
    ensures
        s.new_line().wf(),
        s.write_byte(byte).wf(),
        s.write_byte(byte).color == s.color,
{
    let t = s.new_line();
    assert forall|r: int| 0 <= r < BUFFER_HEIGHT implies (#[trigger] t.rows[r]).len()
        == BUFFER_WIDTH by {
        if r < BUFFER_HEIGHT - 1 {
            assert(t.rows[r] == s.rows[r + 1]);
        }
    }
}

/// Writing a string keeps the invariant of the writer.
pub proof fn lemma_write_string_wf(s: Screen, bytes: Seq<u8>)
    requires
        s.wf(),
    ensures
        s.write_string(bytes).wf(),
        s.write_string(bytes).color == s.color,
    decreases bytes.len(),
{
    if bytes.len() > 0 {
        lemma_write_byte_wf(s, shown(bytes[0]));
        lemma_write_string_wf(s.write_byte(shown(bytes[0])), bytes.skip(1));
    }
}

/// Writing one string after another is writing them as one.
pub proof fn lemma_write_string_append(s: Screen, first: Seq<u8>, second: Seq<u8>)
    ensures
        s.write_string(first + second) == s.write_string(first).write_string(second),
    decreases first.len(),
{
    if first.len() == 0 {
        assert(first + second =~= second);
    } else {
        assert((first + second)[0] == first[0]);
        assert((first + second).skip(1) =~= first.skip(1) + second);
        lemma_write_string_append(s.write_byte(shown(first[0])), first.skip(1), second);
    }
}

/// Whether `bytes` is text that stays in one row: printable characters
/// without a newline.
pub open spec fn is_plain(bytes: Seq<u8>) -> bool {
    forall|i: int| 0 <= i < bytes.len() ==> 0x20 <= #[trigger] bytes[i] <= 0x7e
}

/// Plain text that fits in what is left of the last row goes there, from the
/// column on, in the writer's colours. Nothing else on the screen changes.
pub proof fn lemma_write_plain(s: Screen, bytes: Seq<u8>)
    requires
        s.wf(),
        is_plain(bytes),
        s.column + bytes.len() <= BUFFER_WIDTH,
    ensures
        s.write_string(bytes).wf(),
        s.write_string(bytes).color == s.color,
        s.write_string(bytes).column == s.column + bytes.len(),
        forall|r: int|
            0 <= r < BUFFER_HEIGHT - 1 ==> #[trigger] s.write_string(bytes).rows[r] == s.rows[r],
        forall|c: int|
            0 <= c < BUFFER_WIDTH ==> #[trigger] s.write_string(bytes).rows[BUFFER_HEIGHT - 1][c]
                == (if s.column <= c < s.column + bytes.len() {
                ScreenChar { ascii_character: bytes[c - s.column], color_code: s.color }
            } else {
                s.rows[BUFFER_HEIGHT - 1][c]
            }),
    decreases bytes.len(),
{
    if bytes.len() > 0 {
        let next = s.write_byte(shown(bytes[0]));
        lemma_write_byte_wf(s, shown(bytes[0]));
        assert(is_plain(bytes.skip(1))) by {
            assert forall|i: int| 0 <= i < bytes.skip(1).len() implies 0x20
                <= #[trigger] bytes.skip(1)[i] <= 0x7e by {
                assert(bytes.skip(1)[i] == bytes[i + 1]);
            }
        }
        lemma_write_plain(next, bytes.skip(1));
        let last = BUFFER_HEIGHT - 1;
        assert forall|c: int| 0 <= c < BUFFER_WIDTH implies #[trigger] s.write_string(
            bytes,
        ).rows[last][c] == (if s.column <= c < s.column + bytes.len() {
            ScreenChar { ascii_character: bytes[c - s.column], color_code: s.color }
        } else {
            s.rows[last][c]
        }) by {
            if s.column < c < s.column + bytes.len() {
                assert(bytes.skip(1)[c - next.column] == bytes[c - s.column]);
            }
        }
    }
}

/// A line on the screen. Plain text that is written at the start of the
/// last row and ended with a newline stands at the start of the row above
/// the last, and the writer is at the start of the last row again.
pub proof fn lemma_line_is_shown(s: Screen, line: Seq<u8>)
    requires
        s.wf(),
        s.column == 0,
        is_plain(line),
        line.len() <= BUFFER_WIDTH,
    ensures
        s.write_string(line + seq![0x0au8]).wf(),
        s.write_string(line + seq![0x0au8]).column == 0,
        forall|i: int|
            0 <= i < line.len() ==> (#[trigger] s.write_string(
                line + seq![0x0au8],
            ).rows[BUFFER_HEIGHT - 2][i]) == (ScreenChar {
                ascii_character: line[i],
                color_code: s.color,
            }),
{
    let written = s.write_string(line);
    let newline = seq![0x0au8];
    lemma_write_string_append(s, line, newline);
    lemma_write_plain(s, line);
    lemma_write_byte_wf(written, 0x0a);
    assert(written.write_string(newline) == written.new_line()) by {
        assert(newline.skip(1) =~= Seq::<u8>::empty());
        assert(written.write_byte(0x0a).write_string(newline.skip(1)) == written.write_byte(0x0a));
    }
}

/// Writes text to the last row of the screen, and moves the rows up as needed.
pub struct Writer {
    column_position: usize,
    color_code: ColorCode,
    buffer: &'static mut Buffer,
}

impl View for Writer {
    type V = Screen;

    closed spec fn view(&self) -> Screen {
        Screen {
            column: self.column_position as int,
            color: self.color_code,
            rows: rows_of(*self.buffer),
        }
    }
}

impl Writer {
    /// A writer on `buffer` that starts at column 0 and writes in the colours
    /// `color_code`. The screen shows what `buffer` holds.
    pub fn new(color_code: ColorCode, buffer: &'static mut Buffer) -> (r: Writer)
        ensures
            r@ == (Screen { column: 0, color: color_code, rows: rows_of(*old(buffer)) }),
            r@.wf(),
    {
        Writer { column_position: 0, color_code, buffer }
    }

    /// The column of the last row that the next character goes to.
    pub fn column_position(&self) -> (r: usize)
        ensures
            r == self@.column,
    {
        self.column_position
    }

    /// The colours of what is written.
    pub fn color_code(&self) -> (r: ColorCode)
        ensures
            r == self@.color,
    {
        self.color_code
    }

    /// What the cell at `row` and `col` shows.
    pub fn read(&self, row: usize, col: usize) -> (r: ScreenChar)
        requires
            row < BUFFER_HEIGHT,
            col < BUFFER_WIDTH,
        ensures
            r == self@.rows[row as int][col as int],
    {
        ScreenChar::from_bits(read_cell(&self.buffer[row][col]))
    }

    /// Writes one byte. A newline moves the rows up. Another byte goes to the
    /// last row at the column, after the rows have moved up if that row was
    /// full.
    pub fn write_byte(&mut self, byte: u8)
        requires
            old(self)@.wf(),
        ensures
            final(self)@ == old(self)@.write_byte(byte),
            final(self)@.wf(),
    {
        proof {
            lemma_write_byte_wf(self@, byte);
        }
        if byte == 0x0a {
            self.new_line();
        } else {
            if self.column_position >= BUFFER_WIDTH {
                self.new_line();
            }
            let row: usize = BUFFER_HEIGHT - 1;
            let col: usize = self.column_position;
            let color_code = self.color_code;
            let ghost before = self@;
            let character = ScreenChar { ascii_character: byte, color_code };
            write_cell(&mut self.buffer[row][col], character.to_bits());
            self.column_position = self.column_position + 1;
            proof {
                let after = Screen {
                    column: before.column + 1,
                    rows: before.rows.update(
                        row as int,
                        before.rows[row as int].update(col as int, character),
                    ),
                    ..before
                };
                assert forall|r: int| 0 <= r < BUFFER_HEIGHT implies #[trigger] self@.rows[r]
                    =~= after.rows[r] by {}
                assert(self@.rows =~= after.rows);
            }
        }
    }

    /// Moves every row up by one and fills the last row with spaces.
    pub fn new_line(&mut self)
        ensures
            final(self)@ == old(self)@.new_line(),
            final(self)@.wf(),
    {
        let ghost start = *self.buffer;
        let mut row: usize = 1;
        while row < BUFFER_HEIGHT
            invariant
                1 <= row <= BUFFER_HEIGHT,
                self.column_position == old(self).column_position,
                self.color_code == old(self).color_code,
                forall|r: int, c: int|
                    0 <= r < row - 1 && 0 <= c < BUFFER_WIDTH ==> cell_value(
                        #[trigger] self.buffer[r][c],
                    ) == cell_value(start[r + 1][c]),
                forall|r: int, c: int|
                    row - 1 <= r < BUFFER_HEIGHT && 0 <= c < BUFFER_WIDTH ==> cell_value(
                        #[trigger] self.buffer[r][c],
                    ) == cell_value(start[r][c]),
            decreases BUFFER_HEIGHT - row,
        {
            let mut col: usize = 0;
            while col < BUFFER_WIDTH
                invariant
                    1 <= row < BUFFER_HEIGHT,
                    0 <= col <= BUFFER_WIDTH,
                    self.column_position == old(self).column_position,
                    self.color_code == old(self).color_code,
                    forall|r: int, c: int|
                        0 <= r < row - 1 && 0 <= c < BUFFER_WIDTH ==> cell_value(
                            #[trigger] self.buffer[r][c],
                        ) == cell_value(start[r + 1][c]),
                    forall|c: int|
                        0 <= c < col ==> cell_value(#[trigger] self.buffer[row - 1][c])
                            == cell_value(start[row as int][c]),
                    forall|c: int|
                        col <= c < BUFFER_WIDTH ==> cell_value(#[trigger] self.buffer[row - 1][c])
                            == cell_value(start[row - 1][c]),
                    forall|r: int, c: int|
                        row <= r < BUFFER_HEIGHT && 0 <= c < BUFFER_WIDTH ==> cell_value(
                            #[trigger] self.buffer[r][c],
                        ) == cell_value(start[r][c]),
                decreases BUFFER_WIDTH - col,
            {
                let character = read_cell(&self.buffer[row][col]);
                write_cell(&mut self.buffer[row - 1][col], character);
                col = col + 1;
            }
            row = row + 1;
        }
        let ghost moved = self@;
        self.clear_row(BUFFER_HEIGHT - 1);
        self.column_position = 0;
        proof {
            let after = old(self)@.new_line();
            assert forall|r: int| 0 <= r < BUFFER_HEIGHT implies #[trigger] self@.rows[r]
                =~= after.rows[r] by {
                if r < BUFFER_HEIGHT - 1 {
                    assert(self@.rows[r] == moved.rows[r]);
                    assert forall|c: int| 0 <= c < BUFFER_WIDTH implies moved.rows[r][c]
                        == after.rows[r][c] by {}
                }
            }
            assert(self@.rows =~= after.rows);
        }
    }

    /// Fills row `row` with spaces.
    pub fn clear_row(&mut self, row: usize)
        requires
            row < BUFFER_HEIGHT,
        ensures
            final(self)@ == old(self)@.clear_row(row as int),
            old(self)@.wf() ==> final(self)@.wf(),
    {
        let ghost start = *self.buffer;
        let blank = ScreenChar { ascii_character: 0x20, color_code: self.color_code };
        let mut col: usize = 0;
        while col < BUFFER_WIDTH
            invariant
                row < BUFFER_HEIGHT,
                0 <= col <= BUFFER_WIDTH,
                self.column_position == old(self).column_position,
                self.color_code == old(self).color_code,
                blank == (ScreenChar { ascii_character: 0x20, color_code: self.color_code }),
                forall|c: int|
                    0 <= c < col ==> ScreenChar::of_bits(
                        cell_value(#[trigger] self.buffer[row as int][c]),
                    ) == blank,
                forall|c: int|
                    col <= c < BUFFER_WIDTH ==> cell_value(#[trigger] self.buffer[row as int][c])
                        == cell_value(start[row as int][c]),
                forall|r: int, c: int|
                    0 <= r < BUFFER_HEIGHT && r != row && 0 <= c < BUFFER_WIDTH ==> cell_value(
                        #[trigger] self.buffer[r][c],
                    ) == cell_value(start[r][c]),
            decreases BUFFER_WIDTH - col,
        {
            write_cell(&mut self.buffer[row][col], blank.to_bits());
            col = col + 1;
        }
        proof {
            let after = old(self)@.clear_row(row as int);
            assert forall|r: int| 0 <= r < BUFFER_HEIGHT implies #[trigger] self@.rows[r]
                =~= after.rows[r] by {
                assert forall|c: int| 0 <= c < BUFFER_WIDTH implies self@.rows[r][c]
                    == after.rows[r][c] by {}
            }
            assert(self@.rows =~= after.rows);
        }
    }

    /// Writes the bytes of `s`, one after the other. A byte that is neither
    /// a printable ASCII character nor a newline is shown as a filled box.
    pub fn write_string(&mut self, s: &str)
        requires
            old(self)@.wf(),
        ensures
            final(self)@ == old(self)@.write_string(s.spec_bytes()),
            final(self)@.wf(),
    {
        let bytes = s.as_bytes();
        let mut i: usize = 0;
        proof {
            assert(bytes@.skip(0) =~= bytes@);
        }
        while i < bytes.len()
            invariant
                0 <= i <= bytes@.len(),
                self@.wf(),
                self@.write_string(bytes@.skip(i as int)) == old(self)@.write_string(bytes@),
            decreases bytes@.len() - i,
        {
            let byte: u8 = bytes[i];
            proof {
                assert(bytes@.skip(i as int).skip(1) =~= bytes@.skip(i + 1));
                assert(bytes@.skip(i as int)[0] == byte);
            }
            if (0x20 <= byte && byte <= 0x7e) || byte == 0x0a {
                self.write_byte(byte);
            } else {
                self.write_byte(0xfe);
            }
            i = i + 1;
        }
    }
}

} // verus!
