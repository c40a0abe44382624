//! A grid of braille glyphs, each holding a block of dots two wide and four
//! tall.

use vstd::prelude::*;
use vstd::arithmetic::div_mod::{lemma_fundamental_div_mod, lemma_fundamental_div_mod_converse};
use vstd::pervasive::unreached;
use crate::commons::dithering::{dithered, Ditherer, THRESHOLD};
use crate::commons::gray_img::{GrayImg, GrayView};
use crate::commons::text::is_scalar_value;

verus! {

/// The code point of the empty braille glyph. The 256 glyphs follow it in
/// the order of the byte that holds their dots.
pub const BRAILLE_BASE: u32 = 0x2800;

/// Which bit of a glyph's byte holds the dot at `(x, y)`. Only the column
/// within the glyph, `x` modulo 2, and the row within it, `y` modulo 4,
/// count:
///
/// ```text
/// 0 3
/// 1 4
/// 2 5
/// 6 7
/// ```
pub open spec fn bit_position(x: int, y: int) -> nat {
    if x % 2 == 0 {
        if y % 4 == 0 { 0 } else if y % 4 == 1 { 1 } else if y % 4 == 2 { 2 } else { 6 }
    } else {
        if y % 4 == 0 { 3 } else if y % 4 == 1 { 4 } else if y % 4 == 2 { 5 } else { 7 }
    }
}

/// The byte with only the bit of the dot at `(x, y)` set.
pub open spec fn bit_mask(x: int, y: int) -> u8 {
    1u8 << bit_position(x, y)
}

/// The glyph for a byte of dots. With `no_empty_chars`, the empty glyph is
/// replaced by the one with a single dot, which does not collapse where
/// blank space does.
pub open spec fn glyph(value: u8, no_empty_chars: bool) -> char {
    if value == 0 && no_empty_chars {
        (BRAILLE_BASE + 1) as char
    } else {
        (BRAILLE_BASE + value) as char
    }
}

/// What separates two rows of glyphs.
pub open spec fn row_separator(break_line: bool) -> char {
    if break_line {
        '\n'
    } else {
        ' '
    }
}

/// What a [`BrailleImg`] is to a contract: its dimensions in dots and one
/// byte for each glyph, row by row.
pub struct BrailleView {
    pub dot_width: nat,
    pub dot_height: nat,
    pub cells: Seq<u8>,
}

impl BrailleView {
    /// The number of glyphs in a row: half the width in dots, rounded up.
    pub open spec fn char_width(self) -> nat {
        (self.dot_width + 1) / 2
    }

    /// The number of rows of glyphs: a quarter of the height in dots,
    /// rounded up.
    pub open spec fn char_height(self) -> nat {
        (self.dot_height + 3) / 4
    }

    /// There is exactly one byte for each glyph.
    pub open spec fn wf(self) -> bool {
        self.cells.len() == self.char_width() * self.char_height()
    }

    /// Whether `(x, y)` names a dot of the image.
    pub open spec fn contains(self, x: int, y: int) -> bool {
        0 <= x < self.dot_width && 0 <= y < self.dot_height
    }

    /// Whether `(x, y)` names a dot position of some glyph of the image.
    /// Where the width in dots is odd, or the height no multiple of four,
    /// the last glyphs reach beyond the image: those positions count here.
    pub open spec fn covers(self, x: int, y: int) -> bool {
        0 <= x < 2 * self.char_width() && 0 <= y < 4 * self.char_height()
    }

    /// Where the glyph that holds the dot at `(x, y)` sits among the bytes.
    pub open spec fn cell_index(self, x: int, y: int) -> int {
        (y / 4) * self.char_width() + x / 2
    }

    /// Whether the dot at `(x, y)` is raised.
    pub open spec fn dot(self, x: int, y: int) -> bool {
        self.cells[self.cell_index(x, y)] & bit_mask(x, y) != 0
    }

    /// The image with the dot at `(x, y)` raised or lowered.
    pub open spec fn with_dot(self, x: int, y: int, raised: bool) -> BrailleView {
        let i = self.cell_index(x, y);
        let value = if raised {
            self.cells[i] | bit_mask(x, y)
        } else {
            self.cells[i] & !bit_mask(x, y)
        };
        BrailleView { cells: self.cells.update(i, value), ..self }
    }

    /// The number of characters in the rendered text: every glyph, and one
    /// separator between each two rows.
    pub open spec fn text_len(self) -> nat {
        if self.cells.len() == 0 {
            0
        } else {
            (self.cells.len() + self.char_height() - 1) as nat
        }
    }

    /// The number of positions that a row takes in the rendered text: one
    /// for each glyph and one for the separator.
    pub open spec fn stride(self) -> int {
        self.char_width() as int + 1
    }

    /// The character at position `p` of the rendered text: each row's
    /// glyphs, then its separator.
    pub open spec fn text_char(self, p: int, no_empty_chars: bool, break_line: bool) -> char {
        let stride = self.stride();
        if p % stride == self.char_width() {
            row_separator(break_line)
        } else {
            glyph(self.cells[(p / stride) * self.char_width() + p % stride], no_empty_chars)
        }
    }

    /// The rendered text: the rows of glyphs from top to bottom, each from
    /// left to right, with a separator between each two rows and none at
    /// either end.
    pub open spec fn text(self, no_empty_chars: bool, break_line: bool) -> Seq<char> {
        Seq::new(self.text_len(), |p: int| self.text_char(p, no_empty_chars, break_line))
    }
}

/// The bit positions of one glyph are distinct from dot to dot.
pub proof fn lemma_bit_position_distinct(x1: int, y1: int, x2: int, y2: int)
    ensures
        bit_position(x1, y1) < 8,
        bit_position(x1, y1) == bit_position(x2, y2) <==> (x1 % 2 == x2 % 2 && y1 % 4 == y2 % 4),
{
}

/// A position that some glyph holds belongs to a glyph inside the grid.
pub proof fn lemma_cell_index_in_range(v: BrailleView, x: int, y: int)
    requires
        v.wf(),
        v.covers(x, y),
    ensures
        0 <= x / 2 < v.char_width(),
        0 <= y / 4 < v.char_height(),
        0 <= v.cell_index(x, y) < v.cells.len(),
{
    let cw = v.char_width() as int;
    let ch = v.char_height() as int;
    let cy = y / 4;
    assert(0 <= cy * cw && cy * cw + cw <= ch * cw) by (nonlinear_arith)
        requires
            0 <= cy < ch,
            0 <= cw,
    ;
    assert(ch * cw == cw * ch) by (nonlinear_arith);
}

/// Two positions in the same glyph at the same place within it are the
/// same position.
proof fn lemma_same_cell_same_bit(v: BrailleView, x1: int, y1: int, x2: int, y2: int)
    requires
        v.wf(),
        v.covers(x1, y1),
        v.covers(x2, y2),
        v.cell_index(x1, y1) == v.cell_index(x2, y2),
        x1 % 2 == x2 % 2,
        y1 % 4 == y2 % 4,
    ensures
        x1 == x2,
        y1 == y2,
{
    let cw = v.char_width() as int;
    lemma_cell_index_in_range(v, x1, y1);
    lemma_cell_index_in_range(v, x2, y2);
    lemma_fundamental_div_mod_converse(v.cell_index(x1, y1), cw, y1 / 4, x1 / 2);
    lemma_fundamental_div_mod_converse(v.cell_index(x2, y2), cw, y2 / 4, x2 / 2);
}

/// Raising or lowering a dot sets that dot and no other: afterwards the dot
/// at `(x, y)` is as asked, and every other position of every glyph is as
/// it was.
pub proof fn lemma_with_dot(v: BrailleView, x: int, y: int, raised: bool, x2: int, y2: int)
    requires
        v.wf(),
        v.covers(x, y),
        v.covers(x2, y2),
    ensures
        v.with_dot(x, y, raised).wf(),
        v.with_dot(x, y, raised).dot(x2, y2) == (if x2 == x && y2 == y {
            raised
        } else {
            v.dot(x2, y2)
        }),
{
    lemma_cell_index_in_range(v, x, y);
    lemma_cell_index_in_range(v, x2, y2);
    lemma_bit_position_distinct(x, y, x2, y2);
    lemma_bit_position_distinct(x2, y2, x, y);
    let i = v.cell_index(x, y);
    let i2 = v.cell_index(x2, y2);
    let c = v.cells[i];
    let p = bit_position(x, y) as u8;
    let q = bit_position(x2, y2) as u8;
    assert(bit_mask(x, y) == 1u8 << p);
    assert(bit_mask(x2, y2) == 1u8 << q);
    if i == i2 {
        if p == q {
            lemma_same_cell_same_bit(v, x, y, x2, y2);
            assert((c | (1u8 << p)) & (1u8 << p) != 0) by (bit_vector)
                requires
                    p < 8,
            ;
            assert((c & !(1u8 << p)) & (1u8 << p) == 0) by (bit_vector)
                requires
                    p < 8,
            ;
        } else {
            assert((c | (1u8 << p)) & (1u8 << q) == c & (1u8 << q)) by (bit_vector)
                requires
                    p < 8,
                    q < 8,
                    p != q,
            ;
            assert((c & !(1u8 << p)) & (1u8 << q) == c & (1u8 << q)) by (bit_vector)
                requires
                    p < 8,
                    q < 8,
                    p != q,
            ;
        }
    }
}

/// Raising a lowered dot and lowering it again gives the image back.
pub proof fn lemma_raise_then_lower(v: BrailleView, x: int, y: int)
    requires
        v.wf(),
        v.covers(x, y),
        !v.dot(x, y),
    ensures
        v.with_dot(x, y, true).with_dot(x, y, false) == v,
{
    lemma_cell_index_in_range(v, x, y);
    lemma_bit_position_distinct(x, y, x, y);
    let i = v.cell_index(x, y);
    let c = v.cells[i];
    let p = bit_position(x, y) as u8;
    assert(bit_mask(x, y) == 1u8 << p);
    assert((c | (1u8 << p)) & !(1u8 << p) == c) by (bit_vector)
        requires
            p < 8,
            c & (1u8 << p) == 0,
    ;
    assert(v.with_dot(x, y, true).with_dot(x, y, false).cells =~= v.cells);
}

/// On an empty glyph, raising the dot at `(x, y)` leaves the byte with
/// exactly the bit that the layout assigns to that dot, and lowering it
/// again leaves the byte at 0.
pub proof fn lemma_raise_on_empty_cell(v: BrailleView, x: int, y: int)
    requires
        v.wf(),
        v.covers(x, y),
        v.cells[v.cell_index(x, y)] == 0,
    ensures
        v.with_dot(x, y, true).cells[v.cell_index(x, y)] == bit_mask(x, y),
        v.with_dot(x, y, true).with_dot(x, y, false).cells[v.cell_index(x, y)] == 0,
        bit_mask(x, y) == (if x % 2 == 0 {
            if y % 4 == 0 { 0x01u8 } else if y % 4 == 1 { 0x02u8 } else if y % 4 == 2 { 0x04u8 } else { 0x40u8 }
        } else {
            if y % 4 == 0 { 0x08u8 } else if y % 4 == 1 { 0x10u8 } else if y % 4 == 2 { 0x20u8 } else { 0x80u8 }
        }),
{
    lemma_cell_index_in_range(v, x, y);
    lemma_bit_position_distinct(x, y, x, y);
    let p = bit_position(x, y) as u8;
    assert(bit_mask(x, y) == 1u8 << p);
    assert(0u8 | (1u8 << p) == 1u8 << p) by (bit_vector);
    assert((1u8 << p) & !(1u8 << p) == 0) by (bit_vector);
    assert(1u8 << 0u8 == 0x01 && 1u8 << 1u8 == 0x02 && 1u8 << 2u8 == 0x04 && 1u8 << 6u8 == 0x40
        && 1u8 << 3u8 == 0x08 && 1u8 << 4u8 == 0x10 && 1u8 << 5u8 == 0x20 && 1u8 << 7u8 == 0x80)
        by (bit_vector);
}

/// Where a row and a place in it sit in the rendered text: position
/// `row * stride + place` belongs to that row at that place, the
/// place after the last glyph being the separator's.
pub proof fn lemma_text_position(v: BrailleView, row: int, place: int)
    requires
        0 <= place <= v.char_width(),
    ensures
        (row * v.stride() + place) / v.stride() == row,
        (row * v.stride() + place) % v.stride() == place,
{
    lemma_fundamental_div_mod_converse(row * v.stride() + place, v.stride(), row, place);
}

/// The rendered text has one row for each row of glyphs and one glyph in
/// it for each glyph of the row: it is as long as the glyphs and the
/// separators between the rows together; the glyph in column `col` of row
/// `row` stands at position `row * stride + col` and is a braille
/// pattern, never a separator; and a separator ends every row but the last.
pub proof fn lemma_text_rows(v: BrailleView, no_empty_chars: bool, break_line: bool)
    requires
        v.wf(),
        v.dot_width >= 1,
        v.dot_height >= 1,
    ensures
        v.char_width() >= 1,
        v.char_height() >= 1,
        v.text(no_empty_chars, break_line).len() == v.char_height() * v.char_width() + (
        v.char_height() - 1),
        forall|row: int, col: int|
            0 <= row < v.char_height() && 0 <= col < v.char_width() ==> {
                let c = #[trigger] v.text(no_empty_chars, break_line)[row * v.stride()
                    + col];
                &&& c == glyph(v.cells[row * v.char_width() + col], no_empty_chars)
                &&& BRAILLE_BASE <= c as u32 <= BRAILLE_BASE + 255
                &&& c != row_separator(break_line)
            },
        forall|row: int|
            0 <= row < v.char_height() - 1 ==> #[trigger] v.text(no_empty_chars, break_line)[row
                * v.stride() + v.char_width()] == row_separator(break_line),
{
    let cw = v.char_width() as int;
    let ch = v.char_height() as int;
    let text = v.text(no_empty_chars, break_line);
    assert(ch * cw == cw * ch) by (nonlinear_arith);
    assert(cw * ch >= 1) by (nonlinear_arith)
        requires
            cw >= 1,
            ch >= 1,
    ;
    assert forall|row: int, col: int| 0 <= row < ch && 0 <= col < cw implies {
        let c = #[trigger] text[row * (cw + 1) + col];
        &&& c == glyph(v.cells[row * cw + col], no_empty_chars)
        &&& BRAILLE_BASE <= c as u32 <= BRAILLE_BASE + 255
        &&& c != row_separator(break_line)
    } by {
        lemma_text_position(v, row, col);
        lemma_row_in_text(v, row, col);
    }
    assert forall|row: int| 0 <= row < ch - 1 implies #[trigger] text[row * (cw + 1) + cw]
        == row_separator(break_line) by {
        lemma_text_position(v, row, cw);
        lemma_row_in_text(v, row, cw);
    }
}

/// A place in a row of glyphs lies inside the rendered text, the
/// separator's place too in every row but the last.
proof fn lemma_row_in_text(v: BrailleView, row: int, place: int)
    requires
        v.wf(),
        0 <= row < v.char_height(),
        0 <= place <= v.char_width(),
        place < v.char_width() || row < v.char_height() - 1,
        v.char_width() >= 1,
    ensures
        0 <= row * v.stride() + place < v.text_len(),
        place < v.char_width() ==> 0 <= row * v.char_width() + place < v.cells.len(),
{
    let cw = v.char_width() as int;
    let ch = v.char_height() as int;
    assert(0 <= row * (cw + 1) && row * (cw + 1) + (cw + 1) <= ch * (cw + 1) && ch * (cw + 1)
        == cw * ch + ch && 0 <= row * cw && row * cw + cw <= cw * ch && cw * ch >= 1)
        by (nonlinear_arith)
        requires
            0 <= row < ch,
            cw >= 1,
    ;
    if row < ch - 1 {
        assert(row * (cw + 1) + 2 * (cw + 1) <= ch * (cw + 1)) by (nonlinear_arith)
            requires
                0 <= row < ch - 1,
                cw >= 1,
        ;
    }
}

/// Whether the image has a sample at `(x, y)` that is bright enough to
/// raise a dot.
pub open spec fn lit(img: GrayView, x: int, y: int) -> bool {
    img.contains(x, y) && img.at(x, y) > THRESHOLD
}

/// The byte of the glyph in column `cx` of row `cy` of glyphs: one bit for
/// each lit sample of the block two wide and four tall that the glyph
/// stands for.
pub open spec fn packed_cell(img: GrayView, cx: int, cy: int) -> u8 {
    let x = 2 * cx;
    let y = 4 * cy;
    (if lit(img, x, y) { 0x01u8 } else { 0u8 })
    | (if lit(img, x, y + 1) { 0x02u8 } else { 0u8 })
    | (if lit(img, x, y + 2) { 0x04u8 } else { 0u8 })
    | (if lit(img, x + 1, y) { 0x08u8 } else { 0u8 })
    | (if lit(img, x + 1, y + 1) { 0x10u8 } else { 0u8 })
    | (if lit(img, x + 1, y + 2) { 0x20u8 } else { 0u8 })
    | (if lit(img, x, y + 3) { 0x40u8 } else { 0u8 })
    | (if lit(img, x + 1, y + 3) { 0x80u8 } else { 0u8 })
}

/// The braille image of a lightness map: as many dots as samples, a dot
/// raised exactly where the sample is lit.
pub open spec fn packed(img: GrayView) -> BrailleView {
    let cw = ((img.width + 1) / 2) as int;
    let ch = ((img.height + 3) / 4) as int;
    BrailleView {
        dot_width: img.width,
        dot_height: img.height,
        cells: Seq::new((cw * ch) as nat, |i: int| packed_cell(img, i % cw, i / cw)),
    }
}

/// Packing keeps the dimensions and yields one byte for each glyph.
pub proof fn lemma_packed_shape(img: GrayView)
    ensures
        packed(img).wf(),
        packed(img).dot_width == img.width,
        packed(img).dot_height == img.height,
{
    let cw = ((img.width + 1) / 2) as int;
    let ch = ((img.height + 3) / 4) as int;
    assert(0 <= cw * ch) by (nonlinear_arith)
        requires
            0 <= cw,
            0 <= ch,
    ;
}

/// The byte with one bit for each of eight conditions has a bit set
/// exactly where the condition holds.
proof fn lemma_bits_of_conditions(
    b0: bool,
    b1: bool,
    b2: bool,
    b3: bool,
    b4: bool,
    b5: bool,
    b6: bool,
    b7: bool,
)
    ensures
        ({
            let c = (if b0 { 0x01u8 } else { 0u8 }) | (if b1 { 0x02u8 } else { 0u8 }) | (if b2 {
                0x04u8
            } else {
                0u8
            }) | (if b3 { 0x08u8 } else { 0u8 }) | (if b4 { 0x10u8 } else { 0u8 }) | (if b5 {
                0x20u8
            } else {
                0u8
            }) | (if b6 { 0x40u8 } else { 0u8 }) | (if b7 { 0x80u8 } else { 0u8 });
            &&& (c & 0x01 != 0) == b0
            &&& (c & 0x02 != 0) == b1
            &&& (c & 0x04 != 0) == b2
            &&& (c & 0x08 != 0) == b3
            &&& (c & 0x10 != 0) == b4
            &&& (c & 0x20 != 0) == b5
            &&& (c & 0x40 != 0) == b6
            &&& (c & 0x80 != 0) == b7
        }),
{
    let v0 = if b0 { 0x01u8 } else { 0u8 };
    let v1 = if b1 { 0x02u8 } else { 0u8 };
    let v2 = if b2 { 0x04u8 } else { 0u8 };
    let v3 = if b3 { 0x08u8 } else { 0u8 };
    let v4 = if b4 { 0x10u8 } else { 0u8 };
    let v5 = if b5 { 0x20u8 } else { 0u8 };
    let v6 = if b6 { 0x40u8 } else { 0u8 };
    let v7 = if b7 { 0x80u8 } else { 0u8 };
    assert({
        let c = v0 | v1 | v2 | v3 | v4 | v5 | v6 | v7;
        &&& (c & 0x01 != 0) == (v0 != 0)
        &&& (c & 0x02 != 0) == (v1 != 0)
        &&& (c & 0x04 != 0) == (v2 != 0)
        &&& (c & 0x08 != 0) == (v3 != 0)
        &&& (c & 0x10 != 0) == (v4 != 0)
        &&& (c & 0x20 != 0) == (v5 != 0)
        &&& (c & 0x40 != 0) == (v6 != 0)
        &&& (c & 0x80 != 0) == (v7 != 0)
    }) by (bit_vector)
        requires
            v0 == 0 || v0 == 0x01,
            v1 == 0 || v1 == 0x02,
            v2 == 0 || v2 == 0x04,
            v3 == 0 || v3 == 0x08,
            v4 == 0 || v4 == 0x10,
            v5 == 0 || v5 == 0x20,
            v6 == 0 || v6 == 0x40,
            v7 == 0 || v7 == 0x80,
    ;
}

/// In the braille image of a lightness map a dot is raised exactly where
/// the sample is lit. The positions that the last glyphs hold beyond the
/// edge of the map have no sample, so their dots stay lowered.
pub proof fn lemma_packed_dots(img: GrayView, x: int, y: int)
    requires
        packed(img).covers(x, y),
    ensures
        packed(img).dot(x, y) == lit(img, x, y),
{
    let v = packed(img);
    let cw = v.char_width() as int;
    lemma_packed_shape(img);
    lemma_cell_index_in_range(v, x, y);
    lemma_fundamental_div_mod_converse(v.cell_index(x, y), cw, y / 4, x / 2);
    let px = 2 * (x / 2);
    let py = 4 * (y / 4);
    lemma_bits_of_conditions(
        lit(img, px, py),
        lit(img, px, py + 1),
        lit(img, px, py + 2),
        lit(img, px + 1, py),
        lit(img, px + 1, py + 1),
        lit(img, px + 1, py + 2),
        lit(img, px, py + 3),
        lit(img, px + 1, py + 3),
    );
    assert(1u8 << 0 == 0x01 && 1u8 << 1 == 0x02 && 1u8 << 2 == 0x04 && 1u8 << 6 == 0x40 && 1u8
        << 3 == 0x08 && 1u8 << 4 == 0x10 && 1u8 << 5 == 0x20 && 1u8 << 7 == 0x80)
        by (bit_vector);
}

/// The text of a lightness map of `W` by `H` samples, neither of them 0,
/// has `ceil(H / 4)` rows of `ceil(W / 2)` glyphs each: that many glyphs,
/// each a braille pattern, follow one another in every row, and one
/// separator stands between each two rows and nowhere else.
pub proof fn lemma_encoded_rows(img: GrayView, suppress_empty: bool, line_break: bool)
    requires
        img.width >= 1,
        img.height >= 1,
    ensures
        ({
            let cols = (img.width + 1) / 2;
            let rows = (img.height + 3) / 4;
            let text = packed(img).text(suppress_empty, line_break);
            &&& cols >= 1
            &&& rows >= 1
            &&& text.len() == rows * cols + (rows - 1)
            &&& forall|row: int, col: int|
                0 <= row < rows && 0 <= col < cols ==> {
                    let c = #[trigger] text[row * (cols + 1) + col];
                    &&& BRAILLE_BASE <= c as u32 <= BRAILLE_BASE + 255
                    &&& c != row_separator(line_break)
                }
            &&& forall|row: int|
                0 <= row < rows - 1 ==> #[trigger] text[row * (cols + 1) + cols] == row_separator(
                    line_break,
                )
        }),
{
    let v = packed(img);
    lemma_packed_shape(img);
    lemma_text_rows(v, suppress_empty, line_break);
    let cols = (img.width + 1) / 2;
    let rows = (img.height + 3) / 4;
    let text = v.text(suppress_empty, line_break);
    assert(v.stride() == cols + 1);
    assert forall|row: int, col: int| 0 <= row < rows && 0 <= col < cols implies {
        let c = #[trigger] text[row * (cols + 1) + col];
        &&& BRAILLE_BASE <= c as u32 <= BRAILLE_BASE + 255
        &&& c != row_separator(line_break)
    } by {
        let c = text[row * v.stride() + col];
    }
    assert forall|row: int| 0 <= row < rows - 1 implies #[trigger] text[row * (cols + 1) + cols]
        == row_separator(line_break) by {
        let c = text[row * v.stride() + v.char_width()];
    }
}

/// Each of the eight positions of a glyph belongs to that glyph.
proof fn lemma_cell_position(v: BrailleView, i: int, bx: int, by: int)
    requires
        v.wf(),
        0 <= i < v.cells.len(),
        0 <= bx < 2,
        0 <= by < 4,
    ensures
        v.char_width() > 0,
        v.covers(2 * (i % (v.char_width() as int)) + bx, 4 * (i / (v.char_width() as int)) + by),
        v.cell_index(2 * (i % (v.char_width() as int)) + bx, 4 * (i / (v.char_width() as int)) + by)
            == i,
{
    let cw = v.char_width() as int;
    let ch = v.char_height() as int;
    if cw == 0 {
        assert(cw * ch == 0) by (nonlinear_arith)
            requires
                cw == 0,
        ;
    }
    lemma_fundamental_div_mod(i, cw);
    assert(cw * (i / cw) == (i / cw) * cw) by (nonlinear_arith);
    assert(0 <= i / cw < ch) by (nonlinear_arith)
        requires
            0 <= i < cw * ch,
            cw > 0,
            i == cw * (i / cw) + i % cw,
            0 <= i % cw < cw,
    ;
}

/// The dots decide the bytes: a glyph whose dots are raised exactly where
/// the samples are lit holds the byte that packing assigns to it.
proof fn lemma_cell_from_dots(v: BrailleView, img: GrayView, i: int)
    requires
        v.wf(),
        0 <= i < v.cells.len(),
        forall|x: int, y: int| v.covers(x, y) ==> #[trigger] v.dot(x, y) == lit(img, x, y),
    ensures
        v.cells[i] == packed_cell(img, i % (v.char_width() as int), i / (v.char_width() as int)),
{
    let cw = v.char_width() as int;
    let x = 2 * (i % cw);
    let y = 4 * (i / cw);
    let c = v.cells[i];
    lemma_cell_position(v, i, 0, 0);
    lemma_cell_position(v, i, 0, 1);
    lemma_cell_position(v, i, 0, 2);
    lemma_cell_position(v, i, 0, 3);
    lemma_cell_position(v, i, 1, 0);
    lemma_cell_position(v, i, 1, 1);
    lemma_cell_position(v, i, 1, 2);
    lemma_cell_position(v, i, 1, 3);
    assert(1u8 << 0 == 0x01 && 1u8 << 1 == 0x02 && 1u8 << 2 == 0x04 && 1u8 << 6 == 0x40 && 1u8
        << 3 == 0x08 && 1u8 << 4 == 0x10 && 1u8 << 5 == 0x20 && 1u8 << 7 == 0x80)
        by (bit_vector);
    assert(v.dot(x, y) == (c & 0x01 != 0));
    assert(v.dot(x, y + 1) == (c & 0x02 != 0));
    assert(v.dot(x, y + 2) == (c & 0x04 != 0));
    assert(v.dot(x + 1, y) == (c & 0x08 != 0));
    assert(v.dot(x + 1, y + 1) == (c & 0x10 != 0));
    assert(v.dot(x + 1, y + 2) == (c & 0x20 != 0));
    assert(v.dot(x, y + 3) == (c & 0x40 != 0));
    assert(v.dot(x + 1, y + 3) == (c & 0x80 != 0));
    assert(c == (if c & 0x01 != 0 { 0x01u8 } else { 0u8 })
        | (if c & 0x02 != 0 { 0x02u8 } else { 0u8 })
        | (if c & 0x04 != 0 { 0x04u8 } else { 0u8 })
        | (if c & 0x08 != 0 { 0x08u8 } else { 0u8 })
        | (if c & 0x10 != 0 { 0x10u8 } else { 0u8 })
        | (if c & 0x20 != 0 { 0x20u8 } else { 0u8 })
        | (if c & 0x40 != 0 { 0x40u8 } else { 0u8 })
        | (if c & 0x80 != 0 { 0x80u8 } else { 0u8 })) by (bit_vector);
}

/// A braille image of `dot_width` by `dot_height` dots.
pub struct BrailleImg {
    braille_vals: Vec<u8>,
    dot_width: u32,
    dot_height: u32,
    char_width: u32,
    char_height: u32,
}

impl View for BrailleImg {
    type V = BrailleView;

    closed spec fn view(&self) -> BrailleView {
        BrailleView {
            dot_width: self.dot_width as nat,
            dot_height: self.dot_height as nat,
            cells: self.braille_vals@,
        }
    }
}

impl BrailleImg {
    /// The glyph counts that the image keeps are those of its view.
    pub closed spec fn counts_agree(&self) -> bool {
        &&& self.char_width == self@.char_width()
        &&& self.char_height == self@.char_height()
    }

    /// The invariant of the type: one byte for each glyph, and glyph counts
    /// that go with the dimensions in dots.
    pub open spec fn wf(&self) -> bool {
        &&& self@.wf()
        &&& self.counts_agree()
    }

    /// An image of the given dimensions in dots, with every dot lowered.
    pub fn new(width: u32, height: u32) -> (img: Self)
        requires
            ((width + 1) / 2) * ((height + 3) / 4) <= usize::MAX,
        ensures
            img.wf(),
            img@.dot_width == width,
            img@.dot_height == height,
            img@.cells == Seq::new(img@.char_width() * img@.char_height(), |i: int| 0u8),
    {
        let x_size: u32 = width / 2 + (width % 2);
        let extra_row: u32 = if height % 4 != 0 {
            1
        } else {
            0
        };
        let y_size: u32 = height / 4 + extra_row;
        assert(x_size == (width + 1) / 2);
        assert(y_size == (height + 3) / 4);
        let vals: Vec<u8> = vec![0u8; (x_size as usize) * (y_size as usize)];
        let img = BrailleImg {
            braille_vals: vals,
            dot_width: width,
            dot_height: height,
            char_width: x_size,
            char_height: y_size,
        };
        assert(img@.cells =~= Seq::new(img@.char_width() * img@.char_height(), |i: int| 0u8));
        img
    }

    /// The width in dots.
    pub fn dot_width(&self) -> (width: u32)
        ensures
            width == self@.dot_width,
    {
        self.dot_width
    }

    /// The height in dots.
    pub fn dot_height(&self) -> (height: u32)
        ensures
            height == self@.dot_height,
    {
        self.dot_height
    }

    /// The number of glyphs in a row.
    pub fn char_width(&self) -> (width: u32)
        requires
            self.wf(),
        ensures
            width == self@.char_width(),
    {
        self.char_width
    }

    /// The number of rows of glyphs.
    pub fn char_height(&self) -> (height: u32)
        requires
            self.wf(),
        ensures
            height == self@.char_height(),
    {
        self.char_height
    }

    /// The bytes of the glyphs, row by row.
    pub fn cells(&self) -> (cells: &Vec<u8>)
        ensures
            cells@ == self@.cells,
    {
        &self.braille_vals
    }

    /// The byte with only the bit of the dot at `(x, y)` set.
    pub fn get_bit_mask(x: u32, y: u32) -> (mask: u8)
        ensures
            mask == bit_mask(x as int, y as int),
    {
        assert(1u8 << 0 == 0b00000001 && 1u8 << 1 == 0b00000010 && 1u8 << 2 == 0b00000100 && 1u8
            << 6 == 0b01000000 && 1u8 << 3 == 0b00001000 && 1u8 << 4 == 0b00010000 && 1u8 << 5
            == 0b00100000 && 1u8 << 7 == 0b10000000) by (bit_vector);
        if x % 2 == 0 {
            match y % 4 {
                0 => 0b00000001,
                1 => 0b00000010,
                2 => 0b00000100,
                _ => 0b01000000,
            }
        } else {
            match y % 4 {
                0 => 0b00001000,
                1 => 0b00010000,
                2 => 0b00100000,
                _ => 0b10000000,
            }
        }
    }

    /// Raises or lowers the dot at `(x, y)`.
    pub fn set_dot(&mut self, x: u32, y: u32, raised: bool)
        requires
            old(self).wf(),
            old(self)@.contains(x as int, y as int),
        ensures
            final(self).wf(),
            final(self)@ == old(self)@.with_dot(x as int, y as int, raised),
    {
        proof {
            lemma_cell_index_in_range(self@, x as int, y as int);
            assert(self.braille_vals@.len() == self.braille_vals.len());
        }
        let x_val_pos: usize = (x / 2) as usize;
        let y_val_pos: usize = (y / 4) as usize;
        assert(0 <= y_val_pos * self.char_width) by (nonlinear_arith)
            requires
                0 <= y_val_pos,
                0 <= self.char_width,
        ;
        let i: usize = x_val_pos + y_val_pos * (self.char_width as usize);
        let mask = BrailleImg::get_bit_mask(x, y);
        let val: u8 = self.braille_vals[i];
        if raised {
            self.braille_vals.set(i, val | mask);
        } else {
            self.braille_vals.set(i, val & !mask);
        }
    }

    /// Whether the dot at `(x, y)` is raised.
    pub fn get_dot(&self, x: u32, y: u32) -> (raised: bool)
        requires
            self.wf(),
            self@.contains(x as int, y as int),
        ensures
            raised == self@.dot(x as int, y as int),
    {
        proof {
            lemma_cell_index_in_range(self@, x as int, y as int);
            assert(self.braille_vals@.len() == self.braille_vals.len());
        }
        let x_val_pos: usize = (x / 2) as usize;
        let y_val_pos: usize = (y / 4) as usize;
        assert(0 <= y_val_pos * self.char_width) by (nonlinear_arith)
            requires
                0 <= y_val_pos,
                0 <= self.char_width,
        ;
        let i: usize = x_val_pos + y_val_pos * (self.char_width as usize);
        let mask = BrailleImg::get_bit_mask(x, y);
        self.braille_vals[i] & mask != 0
    }
    /// The glyph for a byte of dots.
    fn braille_char(value: u8, no_empty_chars: bool) -> (c: char)
        ensures
            c == glyph(value, no_empty_chars),
    {
        let offset: u32 = if value == 0 && no_empty_chars {
            1
        } else {
            value as u32
        };
        assert(is_scalar_value(BRAILLE_BASE + offset));
        match char::from_u32(BRAILLE_BASE + offset) {
            Some(c) => c,
            None => unreached(),
        }
    }

    /// Renders the image as text: the rows of glyphs from top to bottom,
    /// separated by a line break if `break_line` is set and by a space
    /// otherwise. With `no_empty_chars`, a glyph without dots is shown as
    /// the glyph with one dot.
    pub fn to_str(self, no_empty_chars: bool, break_line: bool) -> (text: String)
        requires
            self.wf(),
        ensures
            text@ == self@.text(no_empty_chars, break_line),
    {
        let mut braille_string = String::new();
        if self.braille_vals.len() == 0 {
            assert(braille_string@ =~= self@.text(no_empty_chars, break_line));
            return braille_string;
        }
        let ghost v = self@;
        let ghost cw = v.char_width() as int;
        let ghost ch = v.char_height() as int;
        proof {
            assert(self.braille_vals@.len() == self.braille_vals.len());
            if cw == 0 || ch == 0 {
                assert(cw * ch == 0) by (nonlinear_arith)
                    requires
                        cw == 0 || ch == 0,
                ;
            }
        }
        let mut row: u32 = 0;
        while row < self.char_height
            invariant
                self.wf(),
                v == self@,
                cw == v.char_width(),
                ch == v.char_height(),
                cw >= 1,
                ch >= 1,
                row <= ch,
                braille_string@.len() == (if row == 0 {
                    0
                } else {
                    row * (cw + 1) - 1
                }),
                forall|p: int|
                    0 <= p < braille_string@.len() ==> braille_string@[p] == v.text_char(
                        p,
                        no_empty_chars,
                        break_line,
                    ),
            decreases self.char_height - row,
        {
            if row != 0 {
                proof {
                    assert(row * (cw + 1) - 1 == (row - 1) * (cw + 1) + cw) by (nonlinear_arith);
                    lemma_text_position(v, row - 1, cw);
                }
                braille_string.push(
                    if break_line {
                        '\n'
                    } else {
                        ' '
                    },
                );
            }
            let mut col: u32 = 0;
            while col < self.char_width
                invariant
                    self.wf(),
                    v == self@,
                    cw == v.char_width(),
                    ch == v.char_height(),
                    cw >= 1,
                    row < ch,
                    col <= cw,
                    braille_string@.len() == row * (cw + 1) + col,
                    forall|p: int|
                        0 <= p < braille_string@.len() ==> braille_string@[p] == v.text_char(
                            p,
                            no_empty_chars,
                            break_line,
                        ),
                decreases self.char_width - col,
            {
                proof {
                    lemma_text_position(v, row as int, col as int);
                    lemma_row_in_text(v, row as int, col as int);
                    assert(self.braille_vals@.len() == self.braille_vals.len());
                    assert(0 <= row * self.char_width) by (nonlinear_arith)
                        requires
                            0 <= row,
                            0 <= self.char_width,
                    ;
                }
                let i: usize = (row as usize) * (self.char_width as usize) + (col as usize);
                let c = BrailleImg::braille_char(self.braille_vals[i], no_empty_chars);
                braille_string.push(c);
                col += 1;
            }
            proof {
                assert((row + 1) * (cw + 1) - 1 == row * (cw + 1) + cw) by (nonlinear_arith);
            }
            row += 1;
        }
        proof {
            assert(ch * (cw + 1) - 1 == cw * ch + ch - 1) by (nonlinear_arith);
            assert(braille_string@ =~= v.text(no_empty_chars, break_line));
        }
        braille_string
    }
    /// The braille image of a lightness map, without dithering: a dot is
    /// raised exactly where the sample is brighter than the threshold.
    pub fn from_binary(img: &GrayImg) -> (braille: Self)
        requires
            img.wf(),
        ensures
            braille.wf(),
            braille@ == packed(img@),
    {
        let width: u32 = img.width();
        let height: u32 = img.height();
        proof {
            let w = width as int;
            let h = height as int;
            img.lemma_len_fits();
            assert(((w + 1) / 2) * ((h + 3) / 4) <= w * h) by (nonlinear_arith)
                requires
                    0 <= (w + 1) / 2 <= w,
                    0 <= (h + 3) / 4 <= h,
            ;
        }
        let mut braille_img = BrailleImg::new(width, height);
        let ghost g = img@;
        proof {
            assert forall|x: int, y: int| braille_img@.covers(x, y) implies !(
            #[trigger] braille_img@.dot(x, y)) by {
                lemma_cell_index_in_range(braille_img@, x, y);
                let m = bit_mask(x, y);
                assert(0u8 & m == 0) by (bit_vector);
            }
        }
        let mut y: u32 = 0;
        while y < height
            invariant
                y <= height,
                img.wf(),
                g == img@,
                g.width == width,
                g.height == height,
                braille_img.wf(),
                braille_img@.dot_width == width,
                braille_img@.dot_height == height,
                forall|px: int, py: int|
                    braille_img@.covers(px, py) ==> #[trigger] braille_img@.dot(px, py) == (lit(
                        g,
                        px,
                        py,
                    ) && py < y),
            decreases height - y,
        {
            let mut x: u32 = 0;
            while x < width
                invariant
                    x <= width,
                    y < height,
                    img.wf(),
                    g == img@,
                    g.width == width,
                    g.height == height,
                    braille_img.wf(),
                    braille_img@.dot_width == width,
                    braille_img@.dot_height == height,
                    forall|px: int, py: int|
                        braille_img@.covers(px, py) ==> #[trigger] braille_img@.dot(px, py) == (lit(
                            g,
                            px,
                            py,
                        ) && (py < y || (py == y && px < x))),
                decreases width - x,
            {
                if img.get_pixel(x, y) > THRESHOLD {
                    let ghost before = braille_img@;
                    braille_img.set_dot(x, y, true);
                    proof {
                        assert forall|px: int, py: int| braille_img@.covers(px, py) implies (
                        #[trigger] braille_img@.dot(px, py)) == (lit(g, px, py) && (py < y || (py
                            == y && px < x + 1))) by {
                            lemma_with_dot(before, x as int, y as int, true, px, py);
                        }
                    }
                }
                x += 1;
            }
            y += 1;
        }
        proof {
            let v = braille_img@;
            assert(v.cells.len() == packed(g).cells.len());
            assert forall|i: int| 0 <= i < v.cells.len() implies v.cells[i] == packed(g).cells[i] by {
                lemma_cell_from_dots(v, g, i);
            }
            assert(v.cells =~= packed(g).cells);
        }
        braille_img
    }

    /// The braille image of a lightness map: the map is dithered, and a dot
    /// is raised for every sample that comes out white.
    pub fn from_image(img: GrayImg, ditherer: Ditherer) -> (braille: Self)
        requires
            img.wf(),
        ensures
            braille.wf(),
            braille@ == packed(dithered(img@, ditherer)),
    {
        let mut gray_img = img;
        ditherer.dither(&mut gray_img);
        BrailleImg::from_binary(&gray_img)
    }
}

/// Renders a black-and-white map as braille text: a dot for every white
/// sample, the rows of glyphs separated by a line break if `line_break` is
/// set and by a space otherwise. With `suppress_empty`, a glyph without
/// dots is shown as the glyph with one dot.
pub fn encode_braille(binary: &GrayImg, suppress_empty: bool, line_break: bool) -> (text: String)
    requires
        binary.wf(),
    ensures
        text@ == packed(binary@).text(suppress_empty, line_break),
{
    BrailleImg::from_binary(binary).to_str(suppress_empty, line_break)
}

} // verus!
