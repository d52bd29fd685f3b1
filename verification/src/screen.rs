//! Text screens and framebuffers rendered from memory.

use crate::fx;
use crate::state::{State, StateModel, VGA_DAC_LINEAR};
use crate::text;
use vstd::prelude::*;

verus! {

/// The sixteen text-mode colours as red, green and blue.
pub const CGA_PALETTE: [(u8, u8, u8); 16] = [
    (0x00, 0x00, 0x00),
    (0x00, 0x00, 0xAA),
    (0x00, 0xAA, 0x00),
    (0x00, 0xAA, 0xAA),
    (0xAA, 0x00, 0x00),
    (0xAA, 0x00, 0xAA),
    (0xAA, 0x55, 0x00),
    (0xAA, 0xAA, 0xAA),
    (0x55, 0x55, 0x55),
    (0x55, 0x55, 0xFF),
    (0x55, 0xFF, 0x55),
    (0x55, 0xFF, 0xFF),
    (0xFF, 0x55, 0x55),
    (0xFF, 0x55, 0xFF),
    (0xFF, 0xFF, 0x55),
    (0xFF, 0xFF, 0xFF),
];

/// Glyphs of the code points below the printable range.
pub const LOW_GLYPHS: [char; 32] = [
    ' ', '\u{263A}', '\u{263B}', '\u{2665}', '\u{2666}', '\u{2663}', '\u{2660}', '\u{2022}',
    '\u{25D8}', '\u{25CB}', '\u{25D9}', '\u{2642}', '\u{2640}', '\u{266A}', '\u{266B}', '\u{263C}',
    '\u{25BA}', '\u{25C4}', '\u{2195}', '\u{203C}', '\u{00B6}', '\u{00A7}', '\u{25AC}', '\u{21A8}',
    '\u{2191}', '\u{2193}', '\u{2192}', '\u{2190}', '\u{221F}', '\u{2194}', '\u{25B2}', '\u{25BC}',
];

/// Glyphs of the upper half of the code page.
pub const HIGH_GLYPHS: [char; 128] = [
    '\u{00C7}', '\u{00FC}', '\u{00E9}', '\u{00E2}', '\u{00E4}', '\u{00E0}', '\u{00E5}', '\u{00E7}',
    '\u{00EA}', '\u{00EB}', '\u{00E8}', '\u{00EF}', '\u{00EE}', '\u{00EC}', '\u{00C4}', '\u{00C5}',
    '\u{00C9}', '\u{00E6}', '\u{00C6}', '\u{00F4}', '\u{00F6}', '\u{00F2}', '\u{00FB}', '\u{00F9}',
    '\u{00FF}', '\u{00D6}', '\u{00DC}', '\u{00A2}', '\u{00A3}', '\u{00A5}', '\u{20A7}', '\u{0192}',
    '\u{00E1}', '\u{00ED}', '\u{00F3}', '\u{00FA}', '\u{00F1}', '\u{00D1}', '\u{00AA}', '\u{00BA}',
    '\u{00BF}', '\u{2310}', '\u{00AC}', '\u{00BD}', '\u{00BC}', '\u{00A1}', '\u{00AB}', '\u{00BB}',
    '\u{2591}', '\u{2592}', '\u{2593}', '\u{2502}', '\u{2524}', '\u{2561}', '\u{2562}', '\u{2556}',
    '\u{2555}', '\u{2563}', '\u{2551}', '\u{2557}', '\u{255D}', '\u{255C}', '\u{255B}', '\u{2510}',
    '\u{2514}', '\u{2534}', '\u{252C}', '\u{251C}', '\u{2500}', '\u{253C}', '\u{255E}', '\u{255F}',
    '\u{255A}', '\u{2554}', '\u{2569}', '\u{2566}', '\u{2560}', '\u{2550}', '\u{256C}', '\u{2567}',
    '\u{2568}', '\u{2564}', '\u{2565}', '\u{2559}', '\u{2558}', '\u{2552}', '\u{2553}', '\u{256B}',
    '\u{256A}', '\u{2518}', '\u{250C}', '\u{2588}', '\u{2584}', '\u{258C}', '\u{2590}', '\u{2580}',
    '\u{03B1}', '\u{00DF}', '\u{0393}', '\u{03C0}', '\u{03A3}', '\u{03C3}', '\u{00B5}', '\u{03C4}',
    '\u{03A6}', '\u{0398}', '\u{03A9}', '\u{03B4}', '\u{221E}', '\u{03C6}', '\u{03B5}', '\u{2229}',
    '\u{2261}', '\u{00B1}', '\u{2265}', '\u{2264}', '\u{2320}', '\u{2321}', '\u{00F7}', '\u{2248}',
    '\u{00B0}', '\u{2219}', '\u{00B7}', '\u{221A}', '\u{207F}', '\u{00B2}', '\u{25A0}', ' ',
];

/// The glyph of a byte in code page 437: ASCII stands for itself, the other
/// codes for the glyphs of the two tables.
pub open spec fn glyph(b: u8) -> char {
    if b < 0x20 {
        LOW_GLYPHS[b as int]
    } else if b < 0x7F {
        b as char
    } else if b == 0x7F {
        '\u{2302}'
    } else {
        HIGH_GLYPHS[b - 0x80]
    }
}

/// The glyph of a byte in code page 437.
pub fn cp437_to_unicode(b: u8) -> (r: char)
    ensures
        r == glyph(b),
{
    if b < 0x20 {
        LOW_GLYPHS[b as usize]
    } else if b < 0x7F {
        b as char
    } else if b == 0x7F {
        '\u{2302}'
    } else {
        HIGH_GLYPHS[(b - 0x80) as usize]
    }
}

/// Is a character a control character?
pub open spec fn is_control(c: char) -> bool {
    (c as int) < 0x20 || 0x7F <= c as int <= 0x9F
}

/// Is a byte shown as a blank?
pub open spec fn is_blank(b: u8) -> bool {
    b == 0x00 || b == 0x20 || b == 0xFF
}

/// The upper half of the code page has different glyphs beyond Latin-1's control
/// characters, and a blank at its end.
proof fn lemma_high_glyphs(a: u8, b: u8)
    requires
        a >= 0x80,
        b >= 0x80,
    ensures
        glyph(a) == glyph(b) ==> a == b,
        b < 0xFF ==> glyph(b) as int >= 0xA0,
        glyph(0xFF) == ' ',
{
}

/// The lowest codes have different glyphs beyond Latin-1's control characters,
/// and a blank at their start.
proof fn lemma_low_glyphs(a: u8, b: u8)
    requires
        a < 0x20,
        b < 0x20,
    ensures
        glyph(a) == glyph(b) ==> a == b,
        0 < b ==> glyph(b) as int >= 0xA0,
        glyph(0x00) == ' ',
{
}

/// The lowest codes share no glyph with the upper half but the blank, and neither
/// has that of the last code between.
proof fn lemma_low_and_high_glyphs(a: u8, b: u8)
    requires
        a < 0x20,
        b >= 0x80,
    ensures
        glyph(a) == glyph(b) ==> a == 0x00 && b == 0xFF,
        glyph(a) != '\u{2302}',
        glyph(b) != '\u{2302}',
{
}

proof fn lemma_ordered_glyphs(a: u8, b: u8)
    requires
        a < b,
    ensures
        glyph(a) == glyph(b) ==> is_blank(a) && is_blank(b),
{
    if a < 0x20 {
        lemma_low_glyphs(a, if b < 0x20 { b } else { a });
        lemma_low_and_high_glyphs(a, if b >= 0x80 { b } else { 0x80 });
    } else if b >= 0x80 {
        lemma_high_glyphs(if a >= 0x80 { a } else { b }, b);
        lemma_low_and_high_glyphs(0x00, b);
    }
}

/// What the code page shows: printable ASCII as itself, nothing as a control
/// character, and different bytes as different glyphs, but for the three blanks.
pub proof fn law_code_page(a: u8, b: u8)
    ensures
        0x20 <= b <= 0x7E ==> glyph(b) == b as char,
        !is_control(glyph(b)),
        is_blank(b) <==> glyph(b) == ' ',
        a != b && glyph(a) == glyph(b) ==> is_blank(a) && is_blank(b),
        glyph(0x7F) == '\u{2302}',
        glyph(0x80) == '\u{00C7}',
        glyph(0xDB) == '\u{2588}',
{
    if b < 0x20 {
        lemma_low_glyphs(b, b);
    } else if b >= 0x80 {
        lemma_high_glyphs(b, b);
    }
    lemma_low_glyphs(0x00, 0x00);
    lemma_high_glyphs(0xFF, 0xFF);
    if a < b {
        lemma_ordered_glyphs(a, b);
    } else if b < a {
        lemma_ordered_glyphs(b, a);
    }
}

/// A hexadecimal digit.
pub open spec fn hex_digit(n: int) -> char {
    if n < 10 {
        (n + '0' as int) as char
    } else {
        (n - 10 + 'a' as int) as char
    }
}

/// A byte as two hexadecimal digits.
pub open spec fn hex_text(b: u8) -> Seq<char> {
    seq![hex_digit(b as int / 16), hex_digit(b as int % 16)]
}

fn push_hex(out: &mut String, b: u8)
    ensures
        final(out)@ == old(out)@ + hex_text(b),
{
    let hi: u8 = b / 16;
    let lo: u8 = b % 16;
    out.push(if hi < 10 { (hi + 48) as char } else { (hi + 87) as char });
    out.push(if lo < 10 { (lo + 48) as char } else { (lo + 87) as char });
    assert(out@ =~= old(out)@ + hex_text(b));
}

/// Red, green and blue of the low four bits of an attribute.
pub open spec fn low_colour(attr: u8) -> (u8, u8, u8) {
    CGA_PALETTE[attr as int % 16]
}

/// Red, green and blue of the high four bits of an attribute.
pub open spec fn high_colour(attr: u8) -> (u8, u8, u8) {
    CGA_PALETTE[attr as int / 16]
}

/// Terminal escape that selects the colours of an attribute.
pub open spec fn ansi_colours(attr: u8) -> Seq<char> {
    let f = low_colour(attr);
    let b = high_colour(attr);
    "\x1b[38;2;"@ + text::decimal_text(f.0 as nat) + ";"@ + text::decimal_text(f.1 as nat) + ";"@
        + text::decimal_text(f.2 as nat) + ";48;2;"@ + text::decimal_text(b.0 as nat) + ";"@ + text::decimal_text(
        b.1 as nat,
    ) + ";"@ + text::decimal_text(b.2 as nat) + "m"@
}

/// Opening tag that selects the colours of an attribute.
pub open spec fn span_open(attr: u8) -> Seq<char> {
    let f = low_colour(attr);
    let b = high_colour(attr);
    "<span style=\"color:#"@ + hex_text(f.0) + hex_text(f.1) + hex_text(f.2) + ";background:#"@
        + hex_text(b.0) + hex_text(b.1) + hex_text(b.2) + "\">"@
}

/// A glyph with the characters of markup replaced.
pub open spec fn markup(c: char) -> Seq<char> {
    if c == '<' {
        "&lt;"@
    } else if c == '>' {
        "&gt;"@
    } else if c == '&' {
        "&amp;"@
    } else {
        seq![c]
    }
}

impl StateModel {
    /// The byte at `addr`, or `otherwise` beyond the end of memory.
    pub open spec fn byte_or(self, addr: int, otherwise: u8) -> u8 {
        if addr < self.memory.len() {
            self.memory[addr]
        } else {
            otherwise
        }
    }

    /// Character and attribute of the text cell at `addr`; a cell that is not
    /// wholly in memory is a grey blank.
    pub open spec fn text_cell(self, addr: int) -> (u8, u8) {
        if addr + 1 < self.memory.len() {
            (self.memory[addr], self.memory[addr + 1])
        } else {
            (0x20, 0x07)
        }
    }

    /// One row of a plain text screen.
    pub open spec fn screen_row(self, base: int, width: int, y: int) -> Seq<char> {
        Seq::new(
            width as nat,
            |x: int| glyph(self.byte_or(base + (y * width + x) * 2, 0x20)),
        )
    }

    /// The first `rows` rows of a plain text screen, separated by line breaks.
    pub open spec fn screen(self, base: int, width: int, rows: int) -> Seq<char>
        decreases rows,
    {
        if rows <= 0 {
            Seq::empty()
        } else if rows == 1 {
            self.screen_row(base, width, 0)
        } else {
            self.screen(base, width, rows - 1).push('\n') + self.screen_row(base, width, rows - 1)
        }
    }

    /// The text cell at column `x` of row `y`.
    pub open spec fn cell_at(self, base: int, width: int, y: int, x: int) -> (u8, u8) {
        self.text_cell(base + (y * width + x) * 2)
    }

    /// Does a new run of colours begin at column `x`?
    pub open spec fn run_starts(self, base: int, width: int, y: int, x: int) -> bool {
        x == 0 || self.cell_at(base, width, y, x).1 != self.cell_at(base, width, y, x - 1).1
    }

    /// The first `n` cells of a row for a terminal.
    pub open spec fn ansi_cells(self, base: int, width: int, y: int, n: int) -> Seq<char>
        decreases n,
    {
        if n <= 0 {
            Seq::empty()
        } else {
            let c = self.cell_at(base, width, y, n - 1);
            let before = self.ansi_cells(base, width, y, n - 1);
            (if self.run_starts(base, width, y, n - 1) {
                before + ansi_colours(c.1)
            } else {
                before
            }).push(glyph(c.0))
        }
    }

    /// The first `rows` rows of a coloured screen for a terminal: colours are
    /// reset after each row.
    pub open spec fn ansi_screen(self, base: int, width: int, height: int, rows: int) -> Seq<char>
        decreases rows,
    {
        if rows <= 0 {
            Seq::empty()
        } else {
            let row = self.ansi_screen(base, width, height, rows - 1) + self.ansi_cells(
                base,
                width,
                rows - 1,
                width,
            ) + "\x1b[0m"@;
            if rows < height {
                row.push('\n')
            } else {
                row
            }
        }
    }

    /// The first `n` cells of a row as markup.
    pub open spec fn html_cells(self, base: int, width: int, y: int, n: int) -> Seq<char>
        decreases n,
    {
        if n <= 0 {
            Seq::empty()
        } else {
            let c = self.cell_at(base, width, y, n - 1);
            let before = self.html_cells(base, width, y, n - 1);
            (if self.run_starts(base, width, y, n - 1) {
                (if n > 1 {
                    before + "</span>"@
                } else {
                    before
                }) + span_open(c.1)
            } else {
                before
            }) + markup(glyph(c.0))
        }
    }

    /// The first `rows` rows of a coloured screen as markup.
    pub open spec fn html_screen(self, base: int, width: int, height: int, rows: int) -> Seq<char>
        decreases rows,
    {
        if rows <= 0 {
            Seq::empty()
        } else {
            let cells = self.html_screen(base, width, height, rows - 1) + self.html_cells(
                base,
                width,
                rows - 1,
                width,
            );
            let row = if width > 0 {
                cells + "</span>"@
            } else {
                cells
            };
            if rows < height {
                row + "<br>"@
            } else {
                row
            }
        }
    }

    /// The word that the palette holds at `index`.
    pub open spec fn dac_word(self, index: int) -> i32 {
        let addr = (VGA_DAC_LINEAR + index) as i32;
        if self.extended.contains_key(addr) {
            self.extended[addr]
        } else {
            0
        }
    }

    /// Has any of the 768 palette words been set?
    pub open spec fn dac_populated(self) -> bool {
        exists|i: int| 0 <= i < 768 && #[trigger] self.dac_word(i) != 0
    }

    /// Red, green and blue of a pixel: from the palette if it has been set,
    /// else from the text-mode colours.
    pub open spec fn pixel(self, byte: u8) -> (u8, u8, u8) {
        if self.dac_populated() {
            (
                widened(self.dac_word(byte * 3)),
                widened(self.dac_word(byte * 3 + 1)),
                widened(self.dac_word(byte * 3 + 2)),
            )
        } else {
            low_colour(byte)
        }
    }
}

/// Six palette bits widened to eight by repeating the top two.
pub open spec fn widened(word: i32) -> u8 {
    let six = (word & 0x3F) as u8;
    (six << 2u8) | (six >> 4u8)
}

/// Cells of a row lie within the screen.
proof fn lemma_cell_in_range(base: int, width: int, height: int, y: int, x: int)
    requires
        0 <= y < height,
        0 <= x < width,
        0 <= base,
        base + (width * height - 1) * 2 <= usize::MAX,
    ensures
        0 <= y * width,
        y * width + x + 1 <= width * height,
        (y * width + x) * 2 <= (width * height - 1) * 2,
{
    assert(y * width + width <= width * height) by (nonlinear_arith)
        requires
            0 <= y < height,
            0 <= width,
    ;
    assert(0 <= y * width) by (nonlinear_arith)
        requires
            0 <= y,
            0 <= width,
    ;
}

impl State {
    /// A plain text screen: one glyph per cell, rows separated by line breaks.
    /// Characters lie at every other byte; beyond the end of memory they are
    /// blanks.
    pub fn render_screen(&self, base_addr: usize, width: usize, height: usize) -> (r: String)
        requires
            base_addr + (width * height - 1) * 2 <= usize::MAX,
        ensures
            r@ == self@.screen(base_addr as int, width as int, height as int),
    {
        let mut out = String::new();
        let mut y: usize = 0;
        while y < height
            invariant
                y <= height,
                base_addr + (width * height - 1) * 2 <= usize::MAX,
                out@ == self@.screen(base_addr as int, width as int, y as int),
            decreases height - y,
        {
            if y > 0 {
                out.push('\n');
            }
            let ghost start = out@;
            let ghost row = self@.screen_row(base_addr as int, width as int, y as int);
            let mut x: usize = 0;
            assert(row.subrange(0, 0) =~= Seq::<char>::empty());
            assert(out@ =~= start + row.subrange(0, 0));
            while x < width
                invariant
                    y < height,
                    x <= width,
                    base_addr + (width * height - 1) * 2 <= usize::MAX,
                    row == self@.screen_row(base_addr as int, width as int, y as int),
                    out@ == start + row.subrange(0, x as int),
                decreases width - x,
            {
                proof {
                    lemma_cell_in_range(
                        base_addr as int,
                        width as int,
                        height as int,
                        y as int,
                        x as int,
                    );
                }
                let addr: usize = base_addr + (y * width + x) * 2;
                let b: u8 = if addr < self.memory.len() {
                    self.memory[addr]
                } else {
                    0x20
                };
                out.push(cp437_to_unicode(b));
                x += 1;
                assert(out@ =~= start + row.subrange(0, x as int));
            }
            assert(row.subrange(0, x as int) =~= row);
            proof {
                if y == 0 {
                    assert(start =~= Seq::<char>::empty());
                    assert(start + row =~= row);
                }
            }
            y += 1;
        }
        out
    }

    fn text_cell_at(&self, addr: usize) -> (r: (u8, u8))
        requires
            addr + 1 <= usize::MAX,
        ensures
            r == self@.text_cell(addr as int),
    {
        if addr + 1 < self.memory.len() {
            (self.memory[addr], self.memory[addr + 1])
        } else {
            (0x20, 0x07)
        }
    }

    /// A coloured screen for a terminal. Colours are switched where the
    /// attribute changes and reset at the end of each row.
    pub fn render_screen_ansi(&self, base_addr: usize, width: usize, height: usize) -> (r: String)
        requires
            base_addr + (width * height - 1) * 2 + 1 <= usize::MAX,
        ensures
            r@ == self@.ansi_screen(base_addr as int, width as int, height as int, height as int),
    {
        let mut out = String::new();
        let mut y: usize = 0;
        while y < height
            invariant
                y <= height,
                base_addr + (width * height - 1) * 2 + 1 <= usize::MAX,
                out@ == self@.ansi_screen(
                    base_addr as int,
                    width as int,
                    height as int,
                    y as int,
                ),
            decreases height - y,
        {
            let ghost start = out@;
            let mut last: Option<u8> = None;
            let mut x: usize = 0;
            assert(out@ =~= start + self@.ansi_cells(base_addr as int, width as int, y as int, 0));
            while x < width
                invariant
                    y < height,
                    x <= width,
                    base_addr + (width * height - 1) * 2 + 1 <= usize::MAX,
                    out@ == start + self@.ansi_cells(
                        base_addr as int,
                        width as int,
                        y as int,
                        x as int,
                    ),
                    x == 0 ==> last is None,
                    x > 0 ==> last == Some(
                        self@.cell_at(base_addr as int, width as int, y as int, x - 1).1,
                    ),
                decreases width - x,
            {
                proof {
                    lemma_cell_in_range(
                        base_addr as int,
                        width as int,
                        height as int,
                        y as int,
                        x as int,
                    );
                }
                let (ch, attr): (u8, u8) = self.text_cell_at(base_addr + (y * width + x) * 2);
                let same = match last {
                    Some(a) => a == attr,
                    None => false,
                };
                let ghost before = out@;
                if !same {
                    push_ansi_colours(&mut out, attr);
                    last = Some(attr);
                }
                out.push(cp437_to_unicode(ch));
                x += 1;
                assert(out@ =~= start + self@.ansi_cells(
                    base_addr as int,
                    width as int,
                    y as int,
                    x as int,
                ));
            }
            out.append("\x1b[0m");
            if y + 1 < height {
                out.push('\n');
            }
            y += 1;
        }
        out
    }

    /// A coloured screen as markup: one span per run of equal attributes, rows
    /// separated by `<br>`.
    pub fn render_screen_html(&self, base_addr: usize, width: usize, height: usize) -> (r: String)
        requires
            base_addr + (width * height - 1) * 2 + 1 <= usize::MAX,
        ensures
            r@ == self@.html_screen(base_addr as int, width as int, height as int, height as int),
    {
        let mut out = String::new();
        let mut y: usize = 0;
        while y < height
            invariant
                y <= height,
                base_addr + (width * height - 1) * 2 + 1 <= usize::MAX,
                out@ == self@.html_screen(
                    base_addr as int,
                    width as int,
                    height as int,
                    y as int,
                ),
            decreases height - y,
        {
            let ghost start = out@;
            let mut last: Option<u8> = None;
            let mut x: usize = 0;
            assert(out@ =~= start + self@.html_cells(base_addr as int, width as int, y as int, 0));
            while x < width
                invariant
                    y < height,
                    x <= width,
                    base_addr + (width * height - 1) * 2 + 1 <= usize::MAX,
                    out@ == start + self@.html_cells(
                        base_addr as int,
                        width as int,
                        y as int,
                        x as int,
                    ),
                    x == 0 ==> last is None,
                    x > 0 ==> last == Some(
                        self@.cell_at(base_addr as int, width as int, y as int, x - 1).1,
                    ),
                decreases width - x,
            {
                proof {
                    lemma_cell_in_range(
                        base_addr as int,
                        width as int,
                        height as int,
                        y as int,
                        x as int,
                    );
                }
                let (ch, attr): (u8, u8) = self.text_cell_at(base_addr + (y * width + x) * 2);
                let same = match last {
                    Some(a) => a == attr,
                    None => false,
                };
                if !same {
                    if last.is_some() {
                        out.append("</span>");
                    }
                    push_span_open(&mut out, attr);
                    last = Some(attr);
                }
                push_markup(&mut out, cp437_to_unicode(ch));
                x += 1;
                assert(out@ =~= start + self@.html_cells(
                    base_addr as int,
                    width as int,
                    y as int,
                    x as int,
                ));
            }
            if last.is_some() {
                out.append("</span>");
            }
            if y + 1 < height {
                out.append("<br>");
            }
            y += 1;
        }
        out
    }
}

fn push_ansi_colours(out: &mut String, attr: u8)
    ensures
        final(out)@ == old(out)@ + ansi_colours(attr),
{
    let (fr, fg, fb): (u8, u8, u8) = CGA_PALETTE[(attr % 16) as usize];
    let (br, bg, bb): (u8, u8, u8) = CGA_PALETTE[(attr / 16) as usize];
    let mut s: String = "\x1b[38;2;".to_string();
    text::push_decimal(&mut s, fr as u64);
    s.append(";");
    text::push_decimal(&mut s, fg as u64);
    s.append(";");
    text::push_decimal(&mut s, fb as u64);
    s.append(";48;2;");
    text::push_decimal(&mut s, br as u64);
    s.append(";");
    text::push_decimal(&mut s, bg as u64);
    s.append(";");
    text::push_decimal(&mut s, bb as u64);
    s.append("m");
    out.append(s.as_str());
}

fn push_span_open(out: &mut String, attr: u8)
    ensures
        final(out)@ == old(out)@ + span_open(attr),
{
    let (fr, fg, fb): (u8, u8, u8) = CGA_PALETTE[(attr % 16) as usize];
    let (br, bg, bb): (u8, u8, u8) = CGA_PALETTE[(attr / 16) as usize];
    let mut s: String = "<span style=\"color:#".to_string();
    push_hex(&mut s, fr);
    push_hex(&mut s, fg);
    push_hex(&mut s, fb);
    s.append(";background:#");
    push_hex(&mut s, br);
    push_hex(&mut s, bg);
    push_hex(&mut s, bb);
    s.append("\">");
    out.append(s.as_str());
}

fn push_markup(out: &mut String, c: char)
    ensures
        final(out)@ == old(out)@ + markup(c),
{
    if c == '<' {
        out.append("&lt;");
    } else if c == '>' {
        out.append("&gt;");
    } else if c == '&' {
        out.append("&amp;");
    } else {
        out.push(c);
        assert(out@ =~= old(out)@ + markup(c));
    }
}

// ---------------------------------------------------------------------------
// Framebuffers
// ---------------------------------------------------------------------------

/// Three colour components in order.
pub open spec fn rgb(c: (u8, u8, u8)) -> Seq<u8> {
    seq![c.0, c.1, c.2]
}

/// Header of a binary pixmap.
pub open spec fn pixmap_header(width: int, height: int) -> Seq<char> {
    "P6\n"@ + text::decimal_text(width as nat) + " "@ + text::decimal_text(height as nat) + "\n255\n"@
}

impl StateModel {
    /// The first `n` pixels from `base` on, three bytes each, in text-mode
    /// colours.
    pub open spec fn rgb_pixels(self, base: int, n: int) -> Seq<u8>
        decreases n,
    {
        if n <= 0 {
            Seq::empty()
        } else {
            self.rgb_pixels(base, n - 1) + rgb(low_colour(self.byte_or(base + n - 1, 0)))
        }
    }

    /// The first `n` pixels from `base` on, four bytes each, opaque.
    pub open spec fn rgba_pixels(self, base: int, n: int) -> Seq<u8>
        decreases n,
    {
        if n <= 0 {
            Seq::empty()
        } else {
            self.rgba_pixels(base, n - 1) + rgb(self.pixel(self.byte_or(base + n - 1, 0))).push(255)
        }
    }
}

/// As long as no palette word is set, the opaque pixels hold the colours of the
/// pixel map: three bytes each, followed by a full alpha.
pub proof fn law_rgba_holds_rgb(m: StateModel, base: int, n: int, i: int)
    requires
        !m.dac_populated(),
        0 <= i < n,
    ensures
        m.rgb_pixels(base, n).len() == 3 * n,
        m.rgba_pixels(base, n).len() == 4 * n,
        m.rgba_pixels(base, n)[4 * i] == m.rgb_pixels(base, n)[3 * i],
        m.rgba_pixels(base, n)[4 * i + 1] == m.rgb_pixels(base, n)[3 * i + 1],
        m.rgba_pixels(base, n)[4 * i + 2] == m.rgb_pixels(base, n)[3 * i + 2],
        m.rgba_pixels(base, n)[4 * i + 3] == 255,
    decreases n,
{
    if n == 1 {
        assert(m.rgb_pixels(base, 0) =~= Seq::<u8>::empty());
        assert(m.rgba_pixels(base, 0) =~= Seq::<u8>::empty());
    } else {
        law_rgba_holds_rgb(m, base, n - 1, if i < n - 1 { i } else { 0 });
    }
}

impl State {
    fn byte_at(&self, addr: usize) -> (r: u8)
        ensures
            r == self@.byte_or(addr as int, 0),
    {
        if addr < self.memory.len() {
            self.memory[addr]
        } else {
            0
        }
    }

    /// A framebuffer of one byte per pixel as a binary pixmap: the header, then
    /// red, green and blue of each pixel's text-mode colour.
    pub fn render_framebuffer(&self, base_addr: usize, width: usize, height: usize) -> (r: Vec<u8>)
        requires
            width * height <= usize::MAX,
            base_addr + (width * height - 1) <= usize::MAX,
        ensures
            r@ == vstd::utf8::encode_utf8(pixmap_header(width as int, height as int))
                + self@.rgb_pixels(base_addr as int, width * height),
    {
        let mut header: String = "P6\n".to_string();
        text::push_decimal(&mut header, width as u64);
        header.append(" ");
        text::push_decimal(&mut header, height as u64);
        header.append("\n255\n");
        let mut out: Vec<u8> = header.as_str().as_bytes_vec();
        let ghost start = out@;
        assert(0 <= width * height) by (nonlinear_arith);
        let n: usize = width * height;
        let mut i: usize = 0;
        assert(out@ =~= start + self@.rgb_pixels(base_addr as int, 0));
        while i < n
            invariant
                i <= n,
                base_addr + (n - 1) <= usize::MAX,
                out@ == start + self@.rgb_pixels(base_addr as int, i as int),
            decreases n - i,
        {
            let b: u8 = self.byte_at(base_addr + i);
            let (red, green, blue): (u8, u8, u8) = CGA_PALETTE[(b % 16) as usize];
            out.push(red);
            out.push(green);
            out.push(blue);
            i += 1;
            assert(out@ =~= start + self@.rgb_pixels(base_addr as int, i as int));
        }
        out
    }

    fn dac_at(&self, index: usize) -> (r: i32)
        requires
            index < 768,
        ensures
            r == self@.dac_word(index as int),
    {
        match fx::cell_get(&self.extended, VGA_DAC_LINEAR + index as i32) {
            Some(v) => v,
            None => 0,
        }
    }

    /// A framebuffer of one byte per pixel as red, green, blue and alpha bytes.
    /// Colours come from the palette in extended memory once any of it has been
    /// set, and are the text-mode colours before.
    pub fn read_framebuffer_rgba(&self, base_addr: usize, width: usize, height: usize) -> (r: Vec<
        u8,
    >)
        requires
            width * height <= usize::MAX,
            base_addr + (width * height - 1) <= usize::MAX,
        ensures
            r@ == self@.rgba_pixels(base_addr as int, width * height),
    {
        let mut dac: Vec<u8> = Vec::new();
        let mut populated: bool = false;
        let mut k: usize = 0;
        while k < 768
            invariant
                k <= 768,
                dac@.len() == k,
                forall|j: int| 0 <= j < k ==> #[trigger] dac@[j] == widened(self@.dac_word(j)),
                populated == exists|j: int| 0 <= j < k && #[trigger] self@.dac_word(j) != 0,
            decreases 768 - k,
        {
            let v: i32 = self.dac_at(k);
            if v != 0 {
                populated = true;
            }
            let six: u8 = (v & 0x3F) as u8;
            dac.push((six << 2u8) | (six >> 4u8));
            k += 1;
        }
        assert(0 <= width * height) by (nonlinear_arith);
        let n: usize = width * height;
        let mut out: Vec<u8> = Vec::new();
        let mut i: usize = 0;
        assert(out@ =~= self@.rgba_pixels(base_addr as int, 0));
        while i < n
            invariant
                i <= n,
                base_addr + (n - 1) <= usize::MAX,
                dac@.len() == 768,
                forall|j: int| 0 <= j < 768 ==> #[trigger] dac@[j] == widened(self@.dac_word(j)),
                populated == self@.dac_populated(),
                out@ == self@.rgba_pixels(base_addr as int, i as int),
            decreases n - i,
        {
            let b: u8 = self.byte_at(base_addr + i);
            let (red, green, blue): (u8, u8, u8) = if populated {
                let at: usize = b as usize * 3;
                (dac[at], dac[at + 1], dac[at + 2])
            } else {
                CGA_PALETTE[(b % 16) as usize]
            };
            out.push(red);
            out.push(green);
            out.push(blue);
            out.push(255);
            i += 1;
            assert(out@ =~= self@.rgba_pixels(base_addr as int, i as int));
        }
        out
    }

    /// The character bytes of a text screen, row by row; zero beyond the end of
    /// memory.
    pub fn read_video_memory(&self, base_addr: usize, width: usize, height: usize) -> (r: Vec<u8>)
        requires
            base_addr + (width * height - 1) * 2 <= usize::MAX,
        ensures
            r@ == Seq::new(
                (width * height) as nat,
                |i: int| self@.byte_or(base_addr + i * 2, 0),
            ),
    {
        assert(0 <= width * height) by (nonlinear_arith);
        let n: usize = width * height;
        let mut out: Vec<u8> = Vec::new();
        let mut i: usize = 0;
        while i < n
            invariant
                i <= n,
                base_addr + (n - 1) * 2 <= usize::MAX,
                out@ == Seq::new(i as nat, |j: int| self@.byte_or(base_addr + j * 2, 0)),
            decreases n - i,
        {
            let b: u8 = self.byte_at(base_addr + i * 2);
            out.push(b);
            i += 1;
            assert(out@ =~= Seq::new(i as nat, |j: int| self@.byte_or(base_addr + j * 2, 0)));
        }
        out
    }
}

} // verus!
