//! The UI font: 5×7 bitmap glyphs for printable ASCII, packed into a
//! single-channel atlas of 8×8 cells, 32 cells per row, with one solid white
//! cell for rectangle rendering.

use vstd::prelude::*;
use vstd::arithmetic::power2::{pow2, lemma2_to64};

verus! {

/// Glyph cells per atlas row.
pub const ATLAS_COLS: u32 = 32;
/// Atlas width in pixels (32 cells × 8 px).
pub const ATLAS_W: u32 = 256;
/// Atlas height in pixels (3 rows × 8 px).
pub const ATLAS_H: u32 = 24;
/// Cell edge in pixels.
pub const CELL: u32 = 8;
/// Cell that is solid white.
pub const WHITE_INDEX: u32 = 95;

/// Rows of the glyph for `c`, top first; bit 4 of a row is its leftmost
/// pixel. Characters without a drawn glyph are blank.
pub open spec fn glyph_bits(c: char) -> Seq<u8> {
    match c {
        'A' => seq![0b01110, 0b10001, 0b10001, 0b11111, 0b10001, 0b10001, 0b10001],
        'B' => seq![0b11110, 0b10001, 0b10001, 0b11110, 0b10001, 0b10001, 0b11110],
        'C' => seq![0b01110, 0b10001, 0b10000, 0b10000, 0b10000, 0b10001, 0b01110],
        'D' => seq![0b11110, 0b10001, 0b10001, 0b10001, 0b10001, 0b10001, 0b11110],
        'E' => seq![0b11111, 0b10000, 0b10000, 0b11110, 0b10000, 0b10000, 0b11111],
        'F' => seq![0b11111, 0b10000, 0b10000, 0b11110, 0b10000, 0b10000, 0b10000],
        'G' => seq![0b01110, 0b10001, 0b10000, 0b10111, 0b10001, 0b10001, 0b01111],
        'H' => seq![0b10001, 0b10001, 0b10001, 0b11111, 0b10001, 0b10001, 0b10001],
        'I' => seq![0b11111, 0b00100, 0b00100, 0b00100, 0b00100, 0b00100, 0b11111],
        'J' => seq![0b00111, 0b00010, 0b00010, 0b00010, 0b00010, 0b10010, 0b01100],
        'K' => seq![0b10001, 0b10010, 0b10100, 0b11000, 0b10100, 0b10010, 0b10001],
        'L' => seq![0b10000, 0b10000, 0b10000, 0b10000, 0b10000, 0b10000, 0b11111],
        'M' => seq![0b10001, 0b11011, 0b10101, 0b10101, 0b10001, 0b10001, 0b10001],
        'N' => seq![0b10001, 0b11001, 0b10101, 0b10011, 0b10001, 0b10001, 0b10001],
        'O' => seq![0b01110, 0b10001, 0b10001, 0b10001, 0b10001, 0b10001, 0b01110],
        'P' => seq![0b11110, 0b10001, 0b10001, 0b11110, 0b10000, 0b10000, 0b10000],
        'Q' => seq![0b01110, 0b10001, 0b10001, 0b10001, 0b10101, 0b10010, 0b01101],
        'R' => seq![0b11110, 0b10001, 0b10001, 0b11110, 0b10100, 0b10010, 0b10001],
        'S' => seq![0b01111, 0b10000, 0b10000, 0b01110, 0b00001, 0b00001, 0b11110],
        'T' => seq![0b11111, 0b00100, 0b00100, 0b00100, 0b00100, 0b00100, 0b00100],
        'U' => seq![0b10001, 0b10001, 0b10001, 0b10001, 0b10001, 0b10001, 0b01110],
        'V' => seq![0b10001, 0b10001, 0b10001, 0b10001, 0b10001, 0b01010, 0b00100],
        'W' => seq![0b10001, 0b10001, 0b10001, 0b10101, 0b10101, 0b10101, 0b01010],
        'X' => seq![0b10001, 0b10001, 0b01010, 0b00100, 0b01010, 0b10001, 0b10001],
        'Y' => seq![0b10001, 0b10001, 0b01010, 0b00100, 0b00100, 0b00100, 0b00100],
        'Z' => seq![0b11111, 0b00001, 0b00010, 0b00100, 0b01000, 0b10000, 0b11111],
        '0' => seq![0b01110, 0b10001, 0b10011, 0b10101, 0b11001, 0b10001, 0b01110],
        '1' => seq![0b00100, 0b01100, 0b00100, 0b00100, 0b00100, 0b00100, 0b01110],
        '2' => seq![0b01110, 0b10001, 0b00001, 0b00010, 0b00100, 0b01000, 0b11111],
        '3' => seq![0b11110, 0b00001, 0b00001, 0b01110, 0b00001, 0b00001, 0b11110],
        '4' => seq![0b00010, 0b00110, 0b01010, 0b10010, 0b11111, 0b00010, 0b00010],
        '5' => seq![0b11111, 0b10000, 0b11110, 0b00001, 0b00001, 0b10001, 0b01110],
        '6' => seq![0b00110, 0b01000, 0b10000, 0b11110, 0b10001, 0b10001, 0b01110],
        '7' => seq![0b11111, 0b00001, 0b00010, 0b00100, 0b01000, 0b01000, 0b01000],
        '8' => seq![0b01110, 0b10001, 0b10001, 0b01110, 0b10001, 0b10001, 0b01110],
        '9' => seq![0b01110, 0b10001, 0b10001, 0b01111, 0b00001, 0b00010, 0b01100],
        '!' => seq![0b00100, 0b00100, 0b00100, 0b00100, 0b00100, 0b00000, 0b00100],
        '"' => seq![0b01010, 0b01010, 0b00000, 0b00000, 0b00000, 0b00000, 0b00000],
        '#' => seq![0b01010, 0b11111, 0b01010, 0b01010, 0b01010, 0b11111, 0b01010],
        '%' => seq![0b11001, 0b11010, 0b00010, 0b00100, 0b01000, 0b01011, 0b10011],
        '\'' => seq![0b00100, 0b00100, 0b00000, 0b00000, 0b00000, 0b00000, 0b00000],
        '(' => seq![0b00010, 0b00100, 0b01000, 0b01000, 0b01000, 0b00100, 0b00010],
        ')' => seq![0b01000, 0b00100, 0b00010, 0b00010, 0b00010, 0b00100, 0b01000],
        '*' => seq![0b00000, 0b10101, 0b01110, 0b11111, 0b01110, 0b10101, 0b00000],
        '+' => seq![0b00000, 0b00100, 0b00100, 0b11111, 0b00100, 0b00100, 0b00000],
        ',' => seq![0b00000, 0b00000, 0b00000, 0b00000, 0b00000, 0b00100, 0b01000],
        '-' => seq![0b00000, 0b00000, 0b00000, 0b11111, 0b00000, 0b00000, 0b00000],
        '.' => seq![0b00000, 0b00000, 0b00000, 0b00000, 0b00000, 0b00110, 0b00110],
        '/' => seq![0b00001, 0b00010, 0b00010, 0b00100, 0b01000, 0b01000, 0b10000],
        ':' => seq![0b00000, 0b00110, 0b00110, 0b00000, 0b00110, 0b00110, 0b00000],
        ';' => seq![0b00000, 0b00110, 0b00110, 0b00000, 0b00110, 0b00100, 0b01000],
        '<' => seq![0b00010, 0b00100, 0b01000, 0b10000, 0b01000, 0b00100, 0b00010],
        '=' => seq![0b00000, 0b00000, 0b11111, 0b00000, 0b11111, 0b00000, 0b00000],
        '>' => seq![0b01000, 0b00100, 0b00010, 0b00001, 0b00010, 0b00100, 0b01000],
        '?' => seq![0b01110, 0b10001, 0b00001, 0b00010, 0b00100, 0b00000, 0b00100],
        '[' => seq![0b01110, 0b01000, 0b01000, 0b01000, 0b01000, 0b01000, 0b01110],
        ']' => seq![0b01110, 0b00010, 0b00010, 0b00010, 0b00010, 0b00010, 0b01110],
        '_' => seq![0b00000, 0b00000, 0b00000, 0b00000, 0b00000, 0b00000, 0b11111],
        '|' => seq![0b00100, 0b00100, 0b00100, 0b00100, 0b00100, 0b00100, 0b00100],
        _ => seq![0u8, 0u8, 0u8, 0u8, 0u8, 0u8, 0u8],
    }
}

/// Pixel (rx, ry) of a glyph with the given rows is lit.
pub open spec fn glyph_on(rows: Seq<u8>, ry: int, rx: int) -> bool {
    (rows[ry] >> ((4 - rx) as u8)) & 1u8 == 1u8
}

/// Atlas cell of a character: printable ASCII maps to `c - 32`, anything
/// else to the cell of '?'.
pub open spec fn spec_glyph_index(ch: char) -> u32 {
    let c = ch as u32;
    if 32 <= c < 127 { (c - 32) as u32 } else { ('?' as u32 - 32) as u32 }
}

/// Value of atlas pixel (x, y): the white cell is lit everywhere; glyph
/// cells light their glyph's pixels in the cell's top-left 5×7 corner.
pub open spec fn atlas_pixel(x: int, y: int) -> u8 {
    let idx = (y / CELL as int) * ATLAS_COLS as int + x / CELL as int;
    let rx = x % CELL as int;
    let ry = y % CELL as int;
    if idx == WHITE_INDEX as int {
        255
    } else if idx < WHITE_INDEX as int && ry < 7 && rx < 5 && glyph_on(glyph_bits((32 + idx) as char), ry, rx) {
        255
    } else {
        0
    }
}

pub fn glyph_index(ch: char) -> (r: u32)
    ensures
        r == spec_glyph_index(ch),
{
    let c = ch as u32;
    if 32 <= c && c < 127 {
        c - 32
    } else {
        ('?' as u32) - 32
    }
}

/// 5×7 glyph rows for `ch`, top first, bit 4 leftmost.
pub fn glyph_rows(ch: char) -> (r: [u8; 7])
    ensures
        r@ == glyph_bits(ch),
{
    match ch {
        'A' => [0b01110, 0b10001, 0b10001, 0b11111, 0b10001, 0b10001, 0b10001],
        'B' => [0b11110, 0b10001, 0b10001, 0b11110, 0b10001, 0b10001, 0b11110],
        'C' => [0b01110, 0b10001, 0b10000, 0b10000, 0b10000, 0b10001, 0b01110],
        'D' => [0b11110, 0b10001, 0b10001, 0b10001, 0b10001, 0b10001, 0b11110],
        'E' => [0b11111, 0b10000, 0b10000, 0b11110, 0b10000, 0b10000, 0b11111],
        'F' => [0b11111, 0b10000, 0b10000, 0b11110, 0b10000, 0b10000, 0b10000],
        'G' => [0b01110, 0b10001, 0b10000, 0b10111, 0b10001, 0b10001, 0b01111],
        'H' => [0b10001, 0b10001, 0b10001, 0b11111, 0b10001, 0b10001, 0b10001],
        'I' => [0b11111, 0b00100, 0b00100, 0b00100, 0b00100, 0b00100, 0b11111],
        'J' => [0b00111, 0b00010, 0b00010, 0b00010, 0b00010, 0b10010, 0b01100],
        'K' => [0b10001, 0b10010, 0b10100, 0b11000, 0b10100, 0b10010, 0b10001],
        'L' => [0b10000, 0b10000, 0b10000, 0b10000, 0b10000, 0b10000, 0b11111],
        'M' => [0b10001, 0b11011, 0b10101, 0b10101, 0b10001, 0b10001, 0b10001],
        'N' => [0b10001, 0b11001, 0b10101, 0b10011, 0b10001, 0b10001, 0b10001],
        'O' => [0b01110, 0b10001, 0b10001, 0b10001, 0b10001, 0b10001, 0b01110],
        'P' => [0b11110, 0b10001, 0b10001, 0b11110, 0b10000, 0b10000, 0b10000],
        'Q' => [0b01110, 0b10001, 0b10001, 0b10001, 0b10101, 0b10010, 0b01101],
        'R' => [0b11110, 0b10001, 0b10001, 0b11110, 0b10100, 0b10010, 0b10001],
        'S' => [0b01111, 0b10000, 0b10000, 0b01110, 0b00001, 0b00001, 0b11110],
        'T' => [0b11111, 0b00100, 0b00100, 0b00100, 0b00100, 0b00100, 0b00100],
        'U' => [0b10001, 0b10001, 0b10001, 0b10001, 0b10001, 0b10001, 0b01110],
        'V' => [0b10001, 0b10001, 0b10001, 0b10001, 0b10001, 0b01010, 0b00100],
        'W' => [0b10001, 0b10001, 0b10001, 0b10101, 0b10101, 0b10101, 0b01010],
        'X' => [0b10001, 0b10001, 0b01010, 0b00100, 0b01010, 0b10001, 0b10001],
        'Y' => [0b10001, 0b10001, 0b01010, 0b00100, 0b00100, 0b00100, 0b00100],
        'Z' => [0b11111, 0b00001, 0b00010, 0b00100, 0b01000, 0b10000, 0b11111],
        '0' => [0b01110, 0b10001, 0b10011, 0b10101, 0b11001, 0b10001, 0b01110],
        '1' => [0b00100, 0b01100, 0b00100, 0b00100, 0b00100, 0b00100, 0b01110],
        '2' => [0b01110, 0b10001, 0b00001, 0b00010, 0b00100, 0b01000, 0b11111],
        '3' => [0b11110, 0b00001, 0b00001, 0b01110, 0b00001, 0b00001, 0b11110],
        '4' => [0b00010, 0b00110, 0b01010, 0b10010, 0b11111, 0b00010, 0b00010],
        '5' => [0b11111, 0b10000, 0b11110, 0b00001, 0b00001, 0b10001, 0b01110],
        '6' => [0b00110, 0b01000, 0b10000, 0b11110, 0b10001, 0b10001, 0b01110],
        '7' => [0b11111, 0b00001, 0b00010, 0b00100, 0b01000, 0b01000, 0b01000],
        '8' => [0b01110, 0b10001, 0b10001, 0b01110, 0b10001, 0b10001, 0b01110],
        '9' => [0b01110, 0b10001, 0b10001, 0b01111, 0b00001, 0b00010, 0b01100],
        '!' => [0b00100, 0b00100, 0b00100, 0b00100, 0b00100, 0b00000, 0b00100],
        '"' => [0b01010, 0b01010, 0b00000, 0b00000, 0b00000, 0b00000, 0b00000],
        '#' => [0b01010, 0b11111, 0b01010, 0b01010, 0b01010, 0b11111, 0b01010],
        '%' => [0b11001, 0b11010, 0b00010, 0b00100, 0b01000, 0b01011, 0b10011],
        '\'' => [0b00100, 0b00100, 0b00000, 0b00000, 0b00000, 0b00000, 0b00000],
        '(' => [0b00010, 0b00100, 0b01000, 0b01000, 0b01000, 0b00100, 0b00010],
        ')' => [0b01000, 0b00100, 0b00010, 0b00010, 0b00010, 0b00100, 0b01000],
        '*' => [0b00000, 0b10101, 0b01110, 0b11111, 0b01110, 0b10101, 0b00000],
        '+' => [0b00000, 0b00100, 0b00100, 0b11111, 0b00100, 0b00100, 0b00000],
        ',' => [0b00000, 0b00000, 0b00000, 0b00000, 0b00000, 0b00100, 0b01000],
        '-' => [0b00000, 0b00000, 0b00000, 0b11111, 0b00000, 0b00000, 0b00000],
        '.' => [0b00000, 0b00000, 0b00000, 0b00000, 0b00000, 0b00110, 0b00110],
        '/' => [0b00001, 0b00010, 0b00010, 0b00100, 0b01000, 0b01000, 0b10000],
        ':' => [0b00000, 0b00110, 0b00110, 0b00000, 0b00110, 0b00110, 0b00000],
        ';' => [0b00000, 0b00110, 0b00110, 0b00000, 0b00110, 0b00100, 0b01000],
        '<' => [0b00010, 0b00100, 0b01000, 0b10000, 0b01000, 0b00100, 0b00010],
        '=' => [0b00000, 0b00000, 0b11111, 0b00000, 0b11111, 0b00000, 0b00000],
        '>' => [0b01000, 0b00100, 0b00010, 0b00001, 0b00010, 0b00100, 0b01000],
        '?' => [0b01110, 0b10001, 0b00001, 0b00010, 0b00100, 0b00000, 0b00100],
        '[' => [0b01110, 0b01000, 0b01000, 0b01000, 0b01000, 0b01000, 0b01110],
        ']' => [0b01110, 0b00010, 0b00010, 0b00010, 0b00010, 0b00010, 0b01110],
        '_' => [0b00000, 0b00000, 0b00000, 0b00000, 0b00000, 0b00000, 0b11111],
        '|' => [0b00100, 0b00100, 0b00100, 0b00100, 0b00100, 0b00100, 0b00100],
        _ => [0u8, 0u8, 0u8, 0u8, 0u8, 0u8, 0u8],
    }
}

/// Value of atlas pixel (x, y).
fn pixel(x: u32, y: u32) -> (r: u8)
    requires
        x < ATLAS_W,
        y < ATLAS_H,
    ensures
        r == atlas_pixel(x as int, y as int),
{
    let idx = (y / CELL) * ATLAS_COLS + x / CELL;
    let rx = x % CELL;
    let ry = y % CELL;
    if idx == WHITE_INDEX {
        return 255;
    }
    if idx < WHITE_INDEX && ry < 7 && rx < 5 {
        let ch = ((32 + idx) as u8) as char;
        let rows = glyph_rows(ch);
        let row = rows[ry as usize];
        let shift = (4 - rx) as u8;
        if (row >> shift) & 1u8 == 1u8 {
            return 255;
        }
    }
    0
}

/// The font atlas, row-major, `ATLAS_W × ATLAS_H` bytes (0 or 255).
pub fn build_atlas() -> (r: Vec<u8>)
    ensures
        r@.len() == ATLAS_W * ATLAS_H,
        forall|i: int| 0 <= i < r@.len() ==> #[trigger] r@[i] == atlas_pixel(i % ATLAS_W as int, i / ATLAS_W as int),
{
    let mut data: Vec<u8> = Vec::new();
    let mut y: u32 = 0;
    while y < ATLAS_H
        invariant
            y <= ATLAS_H,
            data@.len() == y * ATLAS_W,
            forall|i: int| 0 <= i < data@.len() ==> #[trigger] data@[i] == atlas_pixel(i % ATLAS_W as int, i / ATLAS_W as int),
        decreases ATLAS_H - y,
    {
        let mut x: u32 = 0;
        while x < ATLAS_W
            invariant
                y < ATLAS_H,
                x <= ATLAS_W,
                data@.len() == y * ATLAS_W + x,
                forall|i: int| 0 <= i < data@.len() ==> #[trigger] data@[i] == atlas_pixel(i % ATLAS_W as int, i / ATLAS_W as int),
            decreases ATLAS_W - x,
        {
            let v = pixel(x, y);
            proof {
                let i = (y * ATLAS_W + x) as int;
                assert(i % ATLAS_W as int == x as int && i / ATLAS_W as int == y as int) by (nonlinear_arith)
                    requires
                        i == y * 256 + x,
                        0 <= x < 256,
                        0 <= y,
                ;
            }
            data.push(v);
            x = x + 1;
        }
        y = y + 1;
    }
    data
}

/// Bit `k` (0 the lowest) of row `r`, read by shifting.
proof fn lemma_shifted_bit(r: u8, k: int)
    requires
        0 <= k < 5,
    ensures
        ((r >> (k as u8)) & 1u8 == 1u8) == ((r as int / pow2(k as nat) as int) % 2 == 1),
{
    lemma2_to64();
    let d: u8 = if k == 0 { 1 } else if k == 1 { 2 } else if k == 2 { 4 } else if k == 3 { 8 } else { 16 };
    let sh: u8 = k as u8;
    assert(pow2(k as nat) == d as nat);
    assert(((r >> sh) & 1u8 == 1u8) == ((r / d) % 2u8 == 1u8)) by (bit_vector)
        requires
            (sh == 0u8 && d == 1u8) || (sh == 1u8 && d == 2u8) || (sh == 2u8 && d == 4u8) || (sh == 3u8 && d == 8u8)
                || (sh == 4u8 && d == 16u8),
    ;
}

/// Law (glyph pixels): in glyph cell `idx` (every cell before the white
/// one, 32 cells to an atlas row, 8 × 8 pixels each), the pixel `rx`
/// columns right of the cell's left edge and `ry` rows below its top, inside
/// the 5 × 7 glyph, is lit (255) exactly when bit `4 - rx` of the glyph's
/// row `ry` is set, and dark (0) otherwise: the leftmost pixel is bit 4.
pub proof fn law_glyph_pixel_is_row_bit(idx: int, rx: int, ry: int)
    requires
        0 <= idx < WHITE_INDEX,
        0 <= rx < 5,
        0 <= ry < 7,
    ensures
        atlas_pixel((idx % 32) * 8 + rx, (idx / 32) * 8 + ry) == if (glyph_bits((32 + idx) as char)[ry] as int
            / pow2((4 - rx) as nat) as int) % 2 == 1 {
            255u8
        } else {
            0u8
        },
{
    let x = (idx % 32) * 8 + rx;
    let y = (idx / 32) * 8 + ry;
    assert(x / 8 == idx % 32 && x % 8 == rx && y / 8 == idx / 32 && y % 8 == ry) by (nonlinear_arith)
        requires
            x == (idx % 32) * 8 + rx,
            y == (idx / 32) * 8 + ry,
            0 <= idx,
            0 <= rx < 5,
            0 <= ry < 7,
    ;
    assert((idx / 32) * 32 + idx % 32 == idx) by (nonlinear_arith)
        requires
            0 <= idx,
    ;
    let rows = glyph_bits((32 + idx) as char);
    assert(rows.len() == 7);
    lemma_shifted_bit(rows[ry], 4 - rx);
}

} // verus!
