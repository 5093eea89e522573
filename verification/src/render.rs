//! What a renderer needs that is plain arithmetic: colours as written in a
//! theme, pixels packed for a canvas, the tiles of a large canvas, and the
//! order and the colours of the lines.

use vstd::prelude::*;
use crate::data::semantic::TubeLine;

verus! {

/// A colour: alpha, red, green and blue, each from 0 to 255.
#[derive(Clone, Copy, Debug, PartialEq, Eq, Structural)]
pub struct Color {
    pub a: u8,
    pub r: u8,
    pub g: u8,
    pub b: u8,
}

/// The value of a hexadecimal digit, in either case.
pub open spec fn hex_digit(b: u8) -> Option<u8> {
    if 48 <= b <= 57 {
        Some((b - 48) as u8)
    } else if 97 <= b <= 102 {
        Some((b - 87) as u8)
    } else if 65 <= b <= 70 {
        Some((b - 55) as u8)
    } else {
        None
    }
}

/// The byte that two characters write in hexadecimal: two digits, or a plus
/// sign and one digit.
pub open spec fn hex_byte(hi: u8, lo: u8) -> Option<u8> {
    match hex_digit(lo) {
        None => None,
        Some(l) => if hi == 43 {
            Some(l)
        } else {
            match hex_digit(hi) {
                Some(h) => Some((h * 16 + l) as u8),
                None => None,
            }
        },
    }
}

/// The colour that a text of nine bytes writes: any first byte, then red,
/// green, blue and alpha, each as a byte in hexadecimal.
pub open spec fn color_of(text: Seq<u8>) -> Option<Color> {
    if text.len() != 9 {
        None
    } else {
        match (
            hex_byte(text[1], text[2]),
            hex_byte(text[3], text[4]),
            hex_byte(text[5], text[6]),
            hex_byte(text[7], text[8]),
        ) {
            (Some(r), Some(g), Some(b), Some(a)) => Some(Color { a, r, g, b }),
            _ => None,
        }
    }
}

/// The value of a hexadecimal digit.
fn parse_hex_digit(b: u8) -> (r: Option<u8>)
    ensures
        r == hex_digit(b),
        r matches Some(v) ==> v < 16,
{
    if 48 <= b && b <= 57 {
        Some(b - 48)
    } else if 97 <= b && b <= 102 {
        Some(b - 87)
    } else if 65 <= b && b <= 70 {
        Some(b - 55)
    } else {
        None
    }
}

/// The byte that two characters write in hexadecimal.
pub fn parse_hex_byte(hi: u8, lo: u8) -> (r: Option<u8>)
    ensures
        r == hex_byte(hi, lo),
{
    let l = match parse_hex_digit(lo) {
        Some(l) => l,
        None => {
            return None;
        },
    };
    if hi == 43 {
        return Some(l);
    }
    match parse_hex_digit(hi) {
        Some(h) => Some(h * 16 + l),
        None => None,
    }
}

/// The colour that a text such as `#20304080` writes.
pub fn parse_color(text: &[u8]) -> (r: Option<Color>)
    ensures
        r == color_of(text@),
{
    if text.len() != 9 {
        return None;
    }
    let r = parse_hex_byte(text[1], text[2]);
    let g = parse_hex_byte(text[3], text[4]);
    let b = parse_hex_byte(text[5], text[6]);
    let a = parse_hex_byte(text[7], text[8]);
    match (r, g, b, a) {
        (Some(r), Some(g), Some(b), Some(a)) => Some(Color { a, r, g, b }),
        _ => None,
    }
}

/// A pixel of a canvas: alpha in the highest byte, then red, green and
/// blue.
pub open spec fn argb(a: u8, r: u8, g: u8, b: u8) -> u32 {
    (b + g * 0x100 + r * 0x1_0000 + a * 0x100_0000) as u32
}

/// A pixel of a canvas.
pub fn pack_argb(a: u8, r: u8, g: u8, b: u8) -> (pixel: u32)
    ensures
        pixel == argb(a, r, g, b),
{
    (b as u32) + (g as u32) * 0x100 + (r as u32) * 0x1_0000 + (a as u32) * 0x100_0000
}

/// The pixels of an image whose samples are red, green, blue and alpha, a
/// byte each: one pixel for every four bytes, and nothing for what is left
/// over.
pub fn pack_rgba(samples: &[u8]) -> (pixels: Vec<u32>)
    ensures
        pixels@.len() == samples@.len() / 4,
        forall|i: int|
            0 <= i < pixels@.len() ==> pixels@[i] == argb(
                samples@[4 * i + 3],
                samples@[4 * i],
                samples@[4 * i + 1],
                samples@[4 * i + 2],
            ),
{
    let n = samples.len() / 4;
    let mut pixels: Vec<u32> = Vec::new();
    let mut i: usize = 0;
    while i < n
        invariant
            n == samples@.len() / 4,
            samples@.len() <= usize::MAX,
            i <= n,
            pixels@.len() == i,
            forall|k: int|
                0 <= k < i ==> pixels@[k] == argb(
                    samples@[4 * k + 3],
                    samples@[4 * k],
                    samples@[4 * k + 1],
                    samples@[4 * k + 2],
                ),
        decreases n - i,
    {
        assert(4 * i + 3 < samples@.len());
        let at = 4 * i;
        pixels.push(pack_argb(samples[at + 3], samples[at], samples[at + 1], samples[at + 2]));
        i += 1;
    }
    pixels
}

/// The pixels of an image whose samples are grey and alpha, a byte each:
/// one pixel for every two bytes, grey in all three colours.
pub fn pack_gray_alpha(samples: &[u8]) -> (pixels: Vec<u32>)
    ensures
        pixels@.len() == samples@.len() / 2,
        forall|i: int|
            0 <= i < pixels@.len() ==> pixels@[i] == argb(
                samples@[2 * i + 1],
                samples@[2 * i],
                samples@[2 * i],
                samples@[2 * i],
            ),
{
    let n = samples.len() / 2;
    let mut pixels: Vec<u32> = Vec::new();
    let mut i: usize = 0;
    while i < n
        invariant
            n == samples@.len() / 2,
            samples@.len() <= usize::MAX,
            i <= n,
            pixels@.len() == i,
            forall|k: int|
                0 <= k < i ==> pixels@[k] == argb(
                    samples@[2 * k + 1],
                    samples@[2 * k],
                    samples@[2 * k],
                    samples@[2 * k],
                ),
        decreases n - i,
    {
        assert(2 * i + 1 < samples@.len());
        let at = 2 * i;
        pixels.push(pack_argb(samples[at + 1], samples[at], samples[at], samples[at]));
        i += 1;
    }
    pixels
}

/// A stretch of a canvas along one axis: where it starts and how long it
/// is.
#[derive(Clone, Copy, Debug, PartialEq, Eq, Structural)]
pub struct Span {
    pub start: u64,
    pub size: u64,
}

/// The number of tiles of size `cell` that cover `length`.
pub open spec fn span_count(length: u64, cell: u64) -> int {
    (length + cell - 1) / (cell as int)
}

/// Tile `k` along an axis of `length`: it starts after `k` whole tiles and
/// is as long as a tile, or as what is left.
pub open spec fn span_at(length: u64, cell: u64, k: int) -> Span {
    Span {
        start: (k * cell) as u64,
        size: if length - k * cell < cell {
            (length - k * cell) as u64
        } else {
            cell
        },
    }
}

/// The tiles of size `cell` that cover an axis of `length`, in order:
/// they start at the multiples of `cell` below `length`, and the last one is
/// as long as what is left.
pub fn spans(length: u64, cell: u64) -> (tiles: Vec<Span>)
    requires
        cell > 0,
    ensures
        tiles@.len() == span_count(length, cell),
        forall|k: int| 0 <= k < tiles@.len() ==> tiles@[k] == span_at(length, cell, k),
{
    let mut tiles: Vec<Span> = Vec::new();
    let mut start: u64 = 0;
    let ghost mut k: int = 0;
    if length == 0 {
        assert(span_count(length, cell) == 0) by (nonlinear_arith)
            requires
                length == 0,
                cell > 0,
        ;
        return tiles;
    }
    loop
        invariant_except_break
            cell > 0,
            length > 0,
            start < length,
            start == k * cell,
            k >= 0,
            tiles@.len() == k,
            forall|j: int| 0 <= j < k ==> tiles@[j] == span_at(length, cell, j),
        ensures
            tiles@.len() == span_count(length, cell),
            forall|j: int| 0 <= j < tiles@.len() ==> tiles@[j] == span_at(length, cell, j),
        decreases length - start,
    {
        let left = length - start;
        if left <= cell {
            tiles.push(Span { start, size: left });
            proof {
                assert(span_count(length, cell) == k + 1) by (nonlinear_arith)
                    requires
                        start == k * cell,
                        0 < length - start <= cell,
                        cell > 0,
                        k >= 0,
                ;
            }
            break;
        }
        tiles.push(Span { start, size: cell });
        proof {
            assert((k + 1) * cell == k * cell + cell) by (nonlinear_arith);
            k = k + 1;
        }
        start = start + cell;
    }
    tiles
}

/// The place of a line among the lines: the order in which they are drawn.
pub open spec fn line_rank(line: TubeLine) -> u8 {
    match line {
        TubeLine::Bakerloo => 0,
        TubeLine::Central => 1,
        TubeLine::Circle => 2,
        TubeLine::District => 3,
        TubeLine::Dlr => 4,
        TubeLine::Elizabeth => 5,
        TubeLine::HammersmithAndCity => 6,
        TubeLine::Jubilee => 7,
        TubeLine::Metropolitan => 8,
        TubeLine::Northern => 9,
        TubeLine::Overground => 10,
        TubeLine::Piccadilly => 11,
        TubeLine::Victoria => 12,
        TubeLine::WaterlooAndCity => 13,
    }
}

/// The place of a line among the lines.
pub fn line_index(line: TubeLine) -> (rank: u8)
    ensures
        rank == line_rank(line),
        rank < 14,
{
    match line {
        TubeLine::Bakerloo => 0,
        TubeLine::Central => 1,
        TubeLine::Circle => 2,
        TubeLine::District => 3,
        TubeLine::Dlr => 4,
        TubeLine::Elizabeth => 5,
        TubeLine::HammersmithAndCity => 6,
        TubeLine::Jubilee => 7,
        TubeLine::Metropolitan => 8,
        TubeLine::Northern => 9,
        TubeLine::Overground => 10,
        TubeLine::Piccadilly => 11,
        TubeLine::Victoria => 12,
        TubeLine::WaterlooAndCity => 13,
    }
}

/// The colour in which a line is drawn.
pub open spec fn color_of_line(line: TubeLine) -> Color {
    match line {
        TubeLine::Bakerloo => Color { a: 0xff, r: 0x89, g: 0x4e, b: 0x24 },
        TubeLine::Central => Color { a: 0xff, r: 0xdc, g: 0x24, b: 0x1f },
        TubeLine::Circle => Color { a: 0xff, r: 0xff, g: 0xce, b: 0x00 },
        TubeLine::District => Color { a: 0xff, r: 0x00, g: 0x72, b: 0x29 },
        TubeLine::Dlr => Color { a: 0xff, r: 0x00, g: 0xaf, b: 0xad },
        TubeLine::Elizabeth => Color { a: 0xff, r: 0x69, g: 0x50, b: 0xa1 },
        TubeLine::HammersmithAndCity => Color { a: 0xff, r: 0xd7, g: 0x99, b: 0xaf },
        TubeLine::Jubilee => Color { a: 0xff, r: 0x6a, g: 0x72, b: 0x78 },
        TubeLine::Metropolitan => Color { a: 0xff, r: 0x75, g: 0x10, b: 0x56 },
        TubeLine::Northern => Color { a: 0xff, r: 0x00, g: 0x00, b: 0x00 },
        TubeLine::Overground => Color { a: 0xff, r: 0xe8, g: 0x6a, b: 0x10 },
        TubeLine::Piccadilly => Color { a: 0xff, r: 0x00, g: 0x19, b: 0xa8 },
        TubeLine::Victoria => Color { a: 0xff, r: 0x00, g: 0xa0, b: 0xe2 },
        TubeLine::WaterlooAndCity => Color { a: 0xff, r: 0x76, g: 0xd0, b: 0xbd },
    }
}

/// The colour in which a line is drawn.
pub fn line_color(line: TubeLine) -> (color: Color)
    ensures
        color == color_of_line(line),
{
    match line {
        TubeLine::Bakerloo => Color { a: 0xff, r: 0x89, g: 0x4e, b: 0x24 },
        TubeLine::Central => Color { a: 0xff, r: 0xdc, g: 0x24, b: 0x1f },
        TubeLine::Circle => Color { a: 0xff, r: 0xff, g: 0xce, b: 0x00 },
        TubeLine::District => Color { a: 0xff, r: 0x00, g: 0x72, b: 0x29 },
        TubeLine::Dlr => Color { a: 0xff, r: 0x00, g: 0xaf, b: 0xad },
        TubeLine::Elizabeth => Color { a: 0xff, r: 0x69, g: 0x50, b: 0xa1 },
        TubeLine::HammersmithAndCity => Color { a: 0xff, r: 0xd7, g: 0x99, b: 0xaf },
        TubeLine::Jubilee => Color { a: 0xff, r: 0x6a, g: 0x72, b: 0x78 },
        TubeLine::Metropolitan => Color { a: 0xff, r: 0x75, g: 0x10, b: 0x56 },
        TubeLine::Northern => Color { a: 0xff, r: 0x00, g: 0x00, b: 0x00 },
        TubeLine::Overground => Color { a: 0xff, r: 0xe8, g: 0x6a, b: 0x10 },
        TubeLine::Piccadilly => Color { a: 0xff, r: 0x00, g: 0x19, b: 0xa8 },
        TubeLine::Victoria => Color { a: 0xff, r: 0x00, g: 0xa0, b: 0xe2 },
        TubeLine::WaterlooAndCity => Color { a: 0xff, r: 0x76, g: 0xd0, b: 0xbd },
    }
}

/// Where the pixel at column `x` of row `y` stands in an image of the given
/// width that is kept row after row.
pub open spec fn pixel_at(width: int, x: int, y: int) -> int {
    width * y + x
}

/// Sets the pixel at column `x` of row `y` of an image that is kept row
/// after row. Every other pixel stays as it is.
pub fn set_px(data: &mut Vec<u32>, width: i32, height: i32, x: i32, y: i32, color: u32)
    requires
        0 <= x < width,
        0 <= y < height,
        old(data)@.len() >= width * height,
    ensures
        final(data)@ == old(data)@.update(pixel_at(width as int, x as int, y as int), color),
{
    assert(0 <= width * y && width * y + x < width * height) by (nonlinear_arith)
        requires
            0 <= x < width,
            0 <= y < height,
    ;
    let size = data.len();
    assert(width * height <= size);
    let at = (width as usize) * (y as usize) + (x as usize);
    data.set(at, color);
}

/// One channel of a pixel laid over another: the new value weighted by
/// its alpha, the old one by what is left of 255, rounded down.
pub open spec fn blended(new: u8, alpha: u8, old: u8) -> u8 {
    ((new * alpha + old * (255 - alpha)) / 255) as u8
}

/// One channel of a pixel laid over another.
pub fn blend(new: u8, alpha: u8, old: u8) -> (channel: u8)
    ensures
        channel == blended(new, alpha, old),
{
    assert(0 <= new * alpha <= 255 * alpha && 0 <= old * (255 - alpha) <= 255 * (255 - alpha))
        by (nonlinear_arith)
        requires
            0 <= new <= 255,
            0 <= old <= 255,
            0 <= alpha <= 255,
    ;
    let weighted = (new as u32) * (alpha as u32) + (old as u32) * (255 - alpha as u32);
    (weighted / 255) as u8
}

} // verus!
