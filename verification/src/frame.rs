//! The frame: which pixel an index names, where its ray points, and the
//! bytes that the pixels become.

use vstd::prelude::*;
use crate::single::{byte_of, to_byte};

verus! {

/// The widest and highest frame: within it every pixel's offset from the
/// centre, in half pixels, is a whole number that single precision holds
/// exactly.
pub const MAX_SIDE: usize = 0x80_0000;

/// Twice the offset of the centre of pixel `index` from the centre of a
/// frame `width` wide and `height` high: to the right, and upwards.
/// Pixels are counted row by row from the top left.
pub open spec fn offsets_of(index: int, width: int, height: int) -> (int, int) {
    (2 * (index % width) + 1 - width, height - 2 * (index / width) - 1)
}

/// Twice the offset of a pixel's centre from the centre of the frame.
pub fn pixel_offsets(index: usize, width: usize, height: usize) -> (twice: (i32, i32))
    requires
        0 < width <= MAX_SIDE,
        height <= MAX_SIDE,
        index < width * height,
    ensures
        twice.0 == offsets_of(index as int, width as int, height as int).0,
        twice.1 == offsets_of(index as int, width as int, height as int).1,
        -(width as int) < twice.0 < width,
        -(height as int) < twice.1 < height,
{
    let column = index % width;
    let row = index / width;
    assert(row < height) by (nonlinear_arith)
        requires
            index < width * height,
            row == index as int / width as int,
            width > 0,
    ;
    let x = 2 * (column as i32) + 1 - (width as i32);
    let y = (height as i32) - 2 * (row as i32) - 1;
    (x, y)
}

/// The pixel in row `row` and column `column` has the index
/// `row * width + column`: counted so, its offsets are those of its cell.
pub proof fn lemma_offsets_of_cell(row: int, column: int, width: int, height: int)
    requires
        0 <= row,
        0 <= column < width,
    ensures
        offsets_of(row * width + column, width, height) == (
            2 * column + 1 - width,
            height - 2 * row - 1,
        ),
{
    vstd::arithmetic::div_mod::lemma_fundamental_div_mod_converse(
        row * width + column,
        width,
        row,
        column,
    );
}

/// No two pixels of a frame share their offsets: each has a ray of its own.
pub proof fn lemma_offsets_distinct(i: int, j: int, width: int, height: int)
    requires
        0 < width,
        0 <= i,
        0 <= j,
        offsets_of(i, width, height) == offsets_of(j, width, height),
    ensures
        i == j,
{
    vstd::arithmetic::div_mod::lemma_fundamental_div_mod(i, width);
    vstd::arithmetic::div_mod::lemma_fundamental_div_mod(j, width);
}

/// One pixel: red, green, blue.
pub struct Pixel {
    pub red: u8,
    pub green: u8,
    pub blue: u8,
}

/// The pixel that a colour becomes, from the patterns of its channels
/// once scaled to the range of a byte: each is cut down to a byte.
pub fn quantize(red: u32, green: u32, blue: u32) -> (pixel: Pixel)
    ensures
        pixel.red == byte_of(red),
        pixel.green == byte_of(green),
        pixel.blue == byte_of(blue),
{
    Pixel { red: to_byte(red), green: to_byte(green), blue: to_byte(blue) }
}

/// The bytes of a run of pixels: three for each, red first, pixel after pixel.
pub open spec fn bytes_of(pixels: Seq<Pixel>) -> Seq<u8> {
    Seq::new(
        3 * pixels.len(),
        |k: int|
            if k % 3 == 0 {
                pixels[k / 3].red
            } else if k % 3 == 1 {
                pixels[k / 3].green
            } else {
                pixels[k / 3].blue
            },
    )
}

/// The buffer of a frame `width` wide and `height` high from its pixels,
/// row by row from the top left.
pub fn assemble(width: usize, height: usize, pixels: &Vec<Pixel>) -> (buffer: Vec<u8>)
    requires
        pixels@.len() == width * height,
        width * height * 3 <= usize::MAX,
    ensures
        buffer@.len() == width * height * 3,
        buffer@ == bytes_of(pixels@),
        forall|i: int|
            0 <= i < pixels@.len() ==> buffer@[3 * i] == (#[trigger] pixels@[i]).red && buffer@[3 * i
                + 1] == pixels@[i].green && buffer@[3 * i + 2] == pixels@[i].blue,
{
    let mut buffer: Vec<u8> = Vec::new();
    let mut i: usize = 0;
    while i < pixels.len()
        invariant
            0 <= i <= pixels@.len(),
            buffer@.len() == 3 * i,
            forall|k: int| 0 <= k < 3 * i ==> #[trigger] buffer@[k] == bytes_of(pixels@)[k],
        decreases pixels@.len() - i,
    {
        let ghost before = buffer@;
        buffer.push(pixels[i].red);
        buffer.push(pixels[i].green);
        buffer.push(pixels[i].blue);
        assert forall|k: int| 0 <= k < 3 * (i + 1) implies #[trigger] buffer@[k] == bytes_of(
            pixels@,
        )[k] by {
            if k < 3 * i {
                assert(buffer@[k] == before[k]);
            }
        }
        i = i + 1;
    }
    assert(buffer@ =~= bytes_of(pixels@));
    assert(width * height * 3 == 3 * pixels@.len()) by (nonlinear_arith)
        requires
            pixels@.len() == width * height,
    ;
    buffer
}

} // verus!
