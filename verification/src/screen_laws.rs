//! What screens show of memory, cell by cell.

use crate::fields;
use crate::screen;
use crate::state::{StateModel, VGA_DAC_LINEAR};
use vstd::prelude::*;

verus! {

// ---------------------------------------------------------------------------
// Text
// ---------------------------------------------------------------------------

proof fn lemma_row_starts(width: int, rows: int, y: int)
    requires
        0 <= y < rows,
        0 <= width,
    ensures
        0 <= y * (width + 1),
        y * (width + 1) + width < rows * (width + 1),
        y < rows - 1 ==> y * (width + 1) + width < (rows - 1) * (width + 1),
{
    assert(0 <= y * (width + 1) && (y + 1) * (width + 1) <= rows * (width + 1) && (y < rows - 1 ==> (
    y + 1) * (width + 1) <= (rows - 1) * (width + 1)) && (y + 1) * (width + 1) == y * (width + 1)
        + width + 1) by (nonlinear_arith)
        requires
            0 <= y < rows,
            0 <= width,
    ;
}

/// A plain text screen has one character per cell and a line break between rows: at
/// row `y` and column `x` stands the glyph of the byte that lies two bytes per cell
/// behind the base, counted row by row, and a blank beyond the end of memory.
pub proof fn law_screen_shows_each_cell(m: StateModel, base: int, width: int, rows: int)
    requires
        0 <= width,
        1 <= rows,
    ensures
        ({
            let text = m.screen(base, width, rows);
            &&& text.len() == rows * (width + 1) - 1
            &&& forall|y: int, x: int|
                0 <= y < rows && 0 <= x < width ==> #[trigger] shows(text, m, base, width, y, x)
            &&& forall|y: int| 0 <= y < rows - 1 ==> #[trigger] breaks(text, width, y)
        }),
    decreases rows,
{
    let text = m.screen(base, width, rows);
    let last = m.screen_row(base, width, rows - 1);
    if rows == 1 {
        assert forall|y: int, x: int| 0 <= y < rows && 0 <= x < width implies #[trigger] shows(
            text,
            m,
            base,
            width,
            y,
            x,
        ) by {
            assert(y == 0 && 0 * (width + 1) == 0 && 0 * width == 0);
        }
        assert(1 * (width + 1) - 1 == width);
    } else {
        law_screen_shows_each_cell(m, base, width, rows - 1);
        let old = m.screen(base, width, rows - 1);
        let start = (rows - 1) * (width + 1);
        assert(start + width == rows * (width + 1) - 1) by (nonlinear_arith)
            requires
                start == (rows - 1) * (width + 1),
        ;
        assert(old.len() == start - 1);
        assert forall|y: int, x: int| 0 <= y < rows && 0 <= x < width implies #[trigger] shows(
            text,
            m,
            base,
            width,
            y,
            x,
        ) by {
            if y < rows - 1 {
                lemma_row_starts(width, rows, y);
                assert(shows(old, m, base, width, y, x));
                assert(text[y * (width + 1) + x] == old[y * (width + 1) + x]);
            } else {
                assert(text[start + x] == last[x]);
            }
        }
        assert forall|y: int| 0 <= y < rows - 1 implies #[trigger] breaks(text, width, y) by {
            if y < rows - 2 {
                lemma_row_starts(width, rows - 1, y);
                assert(breaks(old, width, y));
                assert(text[y * (width + 1) + width] == old[y * (width + 1) + width]);
            } else {
                assert(y * (width + 1) + width == start - 1) by (nonlinear_arith)
                    requires
                        start == (rows - 1) * (width + 1),
                        y == rows - 2,
                ;
                assert(text[start - 1] == '\n');
            }
        }
    }
}

/// Does a text show the cell at a row and column?
pub open spec fn shows(
    text: Seq<char>,
    m: StateModel,
    base: int,
    width: int,
    y: int,
    x: int,
) -> bool {
    let addr = base + (y * width + x) * 2;
    text[y * (width + 1) + x] == if addr < m.memory.len() {
        screen::glyph(m.memory[addr])
    } else {
        ' '
    }
}

/// Does a text break the line behind a row?
pub open spec fn breaks(text: Seq<char>, width: int, y: int) -> bool {
    text[y * (width + 1) + width] == '\n'
}

// ---------------------------------------------------------------------------
// Colours
// ---------------------------------------------------------------------------

/// The sixteen text-mode colours: bits 2, 1 and 0 turn red, green and blue on, bit 3
/// brightens all three, and dark yellow has half the green.
pub proof fn law_palette(c: int)
    requires
        0 <= c < 16,
    ensures
        screen::CGA_PALETTE[c].0 == 0xAA * (c / 4 % 2) + 0x55 * (c / 8),
        screen::CGA_PALETTE[c].1 == if c == 6 {
            0x55
        } else {
            0xAA * (c / 2 % 2) + 0x55 * (c / 8)
        },
        screen::CGA_PALETTE[c].2 == 0xAA * (c % 2) + 0x55 * (c / 8),
{
}

/// The foreground of an attribute is its low half, the background its high half.
pub proof fn law_attribute_halves(attr: u8)
    ensures
        screen::low_colour(attr) == screen::CGA_PALETTE[attr as int % 16],
        screen::high_colour(attr) == screen::CGA_PALETTE[attr as int / 16],
{
}

// ---------------------------------------------------------------------------
// Pixels
// ---------------------------------------------------------------------------

/// The byte of a pixel, 0 beyond the end of memory.
pub open spec fn pixel_byte(m: StateModel, addr: int) -> int {
    if addr < m.memory.len() {
        m.memory[addr] as int
    } else {
        0
    }
}

/// A pixel map holds three bytes per pixel, the text-mode colour of the low half of
/// the pixel's byte.
pub proof fn law_pixmap_shows_each_pixel(m: StateModel, base: int, n: int, i: int)
    requires
        0 <= i < n,
    ensures
        m.rgb_pixels(base, n).len() == 3 * n,
        ({
            let colour = screen::CGA_PALETTE[pixel_byte(m, base + i) % 16];
            &&& m.rgb_pixels(base, n)[3 * i] == colour.0
            &&& m.rgb_pixels(base, n)[3 * i + 1] == colour.1
            &&& m.rgb_pixels(base, n)[3 * i + 2] == colour.2
        }),
    decreases n,
{
    if n == 1 {
        assert(m.rgb_pixels(base, 0) =~= Seq::<u8>::empty());
    } else {
        law_pixmap_shows_each_pixel(
            m,
            base,
            n - 1,
            if i < n - 1 {
                i
            } else {
                0
            },
        );
    }
}

/// What a palette word makes of one component: its low six bits, widened to eight.
pub open spec fn component(m: StateModel, index: int) -> int {
    let addr = (VGA_DAC_LINEAR + index) as i32;
    let six = (if m.extended.contains_key(addr) {
        m.extended[addr] as int
    } else {
        0
    }) % 64;
    six * 4 + six / 16
}

/// Is one of the 768 palette words set?
pub open spec fn palette_set(m: StateModel) -> bool {
    exists|addr: i32|
        VGA_DAC_LINEAR <= addr < VGA_DAC_LINEAR + 768 && m.extended.contains_key(addr)
            && #[trigger] m.extended[addr] != 0
}

proof fn lemma_widened(word: i32)
    ensures
        screen::widened(word) as int == (word as int % 64) * 4 + (word as int % 64) / 16,
{
    assert(word & 0x3F == word % 64 && 0 <= (word & 0x3F) < 64) by (bit_vector);
    let six = (word & 0x3F) as u8;
    assert(six < 64 ==> (six << 2u8) | (six >> 4u8) == six * 4 + six / 16) by (bit_vector);
}

proof fn lemma_palette_set(m: StateModel)
    ensures
        palette_set(m) == m.dac_populated(),
{
    if m.dac_populated() {
        let i = choose|i: int| 0 <= i < 768 && #[trigger] m.dac_word(i) != 0;
        let addr = (VGA_DAC_LINEAR + i) as i32;
        assert(m.extended[addr] != 0);
    }
    if palette_set(m) {
        let addr = choose|addr: i32|
            VGA_DAC_LINEAR <= addr < VGA_DAC_LINEAR + 768 && m.extended.contains_key(addr)
                && #[trigger] m.extended[addr] != 0;
        assert(m.dac_word(addr - VGA_DAC_LINEAR) != 0);
    }
}

/// Opaque pixels are four bytes each: red, green and blue from the three palette
/// words of the pixel's byte once a palette word is set, and until then the text-mode
/// colour of its low half; then full alpha.
pub proof fn law_rgba_shows_each_pixel(m: StateModel, base: int, n: int, i: int)
    requires
        0 <= i < n,
    ensures
        m.rgba_pixels(base, n).len() == 4 * n,
        ({
            let pixels = m.rgba_pixels(base, n);
            let byte = pixel_byte(m, base + i);
            let colour = screen::CGA_PALETTE[byte % 16];
            &&& pixels[4 * i + 3] == 255
            &&& if palette_set(m) {
                pixels[4 * i] == component(m, 3 * byte) && pixels[4 * i + 1] == component(
                    m,
                    3 * byte + 1,
                ) && pixels[4 * i + 2] == component(m, 3 * byte + 2)
            } else {
                pixels[4 * i] == colour.0 && pixels[4 * i + 1] == colour.1 && pixels[4 * i + 2]
                    == colour.2
            }
        }),
    decreases n,
{
    lemma_palette_set(m);
    let byte = m.byte_or(base + n - 1, 0);
    lemma_widened(m.dac_word(byte * 3));
    lemma_widened(m.dac_word(byte * 3 + 1));
    lemma_widened(m.dac_word(byte * 3 + 2));
    if n == 1 {
        assert(m.rgba_pixels(base, 0) =~= Seq::<u8>::empty());
    } else {
        law_rgba_shows_each_pixel(
            m,
            base,
            n - 1,
            if i < n - 1 {
                i
            } else {
                0
            },
        );
    }
}

// ---------------------------------------------------------------------------
// Runs of colours
// ---------------------------------------------------------------------------

/// Do the first `n` cells of a row have the attribute?
pub open spec fn one_colour(
    m: StateModel,
    base: int,
    width: int,
    y: int,
    n: int,
    attr: u8,
) -> bool {
    forall|x: int| 0 <= x < n ==> (#[trigger] m.cell_at(base, width, y, x)).1 == attr
}

/// A row of one colour for a terminal: the colours once, then the glyphs.
pub proof fn law_ansi_row_of_one_colour(
    m: StateModel,
    base: int,
    width: int,
    y: int,
    n: int,
    attr: u8,
)
    requires
        1 <= n,
        one_colour(m, base, width, y, n, attr),
    ensures
        m.ansi_cells(base, width, y, n) == screen::ansi_colours(attr) + Seq::new(
            n as nat,
            |x: int| screen::glyph(m.cell_at(base, width, y, x).0),
        ),
    decreases n,
{
    let glyphs = Seq::new(n as nat, |x: int| screen::glyph(m.cell_at(base, width, y, x).0));
    assert(m.cell_at(base, width, y, n - 1).1 == attr);
    if n == 1 {
        assert(m.ansi_cells(base, width, y, 0) =~= Seq::empty());
    } else {
        assert(one_colour(m, base, width, y, n - 1, attr));
        law_ansi_row_of_one_colour(m, base, width, y, n - 1, attr);
        assert(m.cell_at(base, width, y, n - 2).1 == attr);
    }
    assert(m.ansi_cells(base, width, y, n) =~= screen::ansi_colours(attr) + glyphs);
}

/// A row for a terminal begins with the colours of its first cell, and selects new
/// ones exactly where the attribute changes.
pub proof fn law_ansi_selects_on_change(m: StateModel, base: int, width: int, y: int, x: int)
    requires
        0 <= x,
    ensures
        ({
            let before = m.ansi_cells(base, width, y, x);
            let after = m.ansi_cells(base, width, y, x + 1);
            let here = m.cell_at(base, width, y, x);
            let there = m.cell_at(base, width, y, x - 1);
            after == before + (if x == 0 || here.1 != there.1 {
                screen::ansi_colours(here.1)
            } else {
                Seq::empty()
            }) + seq![screen::glyph(here.0)]
        }),
{
    let here = m.cell_at(base, width, y, x);
    assert(m.ansi_cells(base, width, y, x + 1) =~= m.ansi_cells(base, width, y, x) + (if x == 0
        || here.1 != m.cell_at(base, width, y, x - 1).1 {
        screen::ansi_colours(here.1)
    } else {
        Seq::empty()
    }) + seq![screen::glyph(here.0)]);
}

// ---------------------------------------------------------------------------
// Markup
// ---------------------------------------------------------------------------

/// A row as markup opens a span for its first cell, and closes it to open another
/// exactly where the attribute changes.
pub proof fn law_markup_opens_on_change(m: StateModel, base: int, width: int, y: int, x: int)
    requires
        0 <= x,
    ensures
        ({
            let before = m.html_cells(base, width, y, x);
            let after = m.html_cells(base, width, y, x + 1);
            let here = m.cell_at(base, width, y, x);
            let there = m.cell_at(base, width, y, x - 1);
            let shown = screen::markup(screen::glyph(here.0));
            &&& x == 0 ==> after == screen::span_open(here.1) + shown
            &&& x > 0 && here.1 == there.1 ==> after == before + shown
            &&& x > 0 && here.1 != there.1 ==> after == before + "</span>"@ + screen::span_open(
                here.1,
            ) + shown
        }),
{
    if x == 0 {
        let here = m.cell_at(base, width, y, x);
        assert(m.html_cells(base, width, y, 0) =~= Seq::<char>::empty());
        assert(Seq::<char>::empty() + screen::span_open(here.1) =~= screen::span_open(here.1));
    }
}

/// Markup of a glyph holds no angle bracket, and tells glyphs apart.
pub proof fn law_markup_keeps_glyphs_apart(c: char, d: char)
    ensures
        forall|i: int|
            0 <= i < screen::markup(c).len() ==> #[trigger] screen::markup(c)[i] != '<'
                && screen::markup(c)[i] != '>',
        screen::markup(c) == screen::markup(d) ==> c == d,
        screen::markup(c).len() > 0,
        screen::markup(c)[0] == '&' <==> screen::markup(c).len() > 1,
{
    reveal_strlit("&lt;");
    reveal_strlit("&gt;");
    reveal_strlit("&amp;");
    assert("&lt;"@.len() == 4 && "&gt;"@.len() == 4 && "&amp;"@.len() == 5);
    assert("&lt;"@[1] == 'l' && "&gt;"@[1] == 'g');
    if screen::markup(c).len() == 1 && screen::markup(d).len() == 1 {
        assert(screen::markup(c)[0] == c && screen::markup(d)[0] == d);
    }
}

/// The two digits of a byte read back as the byte.
pub proof fn law_hexadecimal_bytes_read_back(b: u8)
    ensures
        screen::hex_text(b).len() == 2,
        fields::magnitude(screen::hex_text(b), 16) == Some(b as int),
{
    let s = screen::hex_text(b);
    let high = b as int / 16;
    let low = b as int % 16;
    assert(s.drop_last() =~= seq![screen::hex_digit(high)]);
    assert(seq![screen::hex_digit(high)].drop_last() =~= Seq::<char>::empty());
    assert(fields::digit(screen::hex_digit(high), 16) == Some(high));
    assert(fields::digit(screen::hex_digit(low), 16) == Some(low));
    reveal_with_fuel(fields::magnitude, 3);
}

/// A colour as six hexadecimal digits.
pub open spec fn colour_text(c: (u8, u8, u8)) -> Seq<char> {
    screen::hex_text(c.0) + screen::hex_text(c.1) + screen::hex_text(c.2)
}

/// A span writes in the colour of the attribute's low half, on the colour of its high
/// half.
pub proof fn law_spans_select_both_halves(attr: u8)
    ensures
        screen::span_open(attr) == "<span style=\"color:#"@ + colour_text(
            screen::CGA_PALETTE[attr as int % 16],
        ) + ";background:#"@ + colour_text(screen::CGA_PALETTE[attr as int / 16]) + "\">"@,
{
    let f = screen::CGA_PALETTE[attr as int % 16];
    let b = screen::CGA_PALETTE[attr as int / 16];
    assert(screen::span_open(attr) =~= "<span style=\"color:#"@ + colour_text(f) + ";background:#"@
        + colour_text(b) + "\">"@);
}

} // verus!
