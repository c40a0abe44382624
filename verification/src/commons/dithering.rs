//! Turning a lightness map into a black-and-white one.
//!
//! Every ditherer decides each sample against the same cut: a sample
//! brighter than [`THRESHOLD`] becomes white, any other becomes black. They
//! differ in what they add to a sample before the cut.

use vstd::prelude::*;
use crate::commons::gray_img::{GrayImg, GrayView, lemma_index_coords, lemma_index_in_range};
use crate::commons::sierra::{
    lemma_diffused_shape, lemma_sierra_fixes_binary, lemma_sierra_is_binary, sierra2row,
    sierra_dithered,
};

verus! {

/// Samples above this lightness become white.
pub const THRESHOLD: u8 = 127;

/// Full white.
pub const WHITE: u8 = 255;

/// Full black.
pub const BLACK: u8 = 0;

/// The cut itself: white above the threshold, black otherwise.
pub open spec fn quantized(value: int) -> u8 {
    if value > THRESHOLD {
        WHITE
    } else {
        BLACK
    }
}

/// The image with every sample cut at the threshold on its own.
pub open spec fn thresholded(img: GrayView) -> GrayView {
    GrayView { pixels: Seq::new(img.pixels.len(), |i: int| quantized(img.pixels[i] as int)), ..img }
}

/// The 4x4 ordered-dither matrix: the lightness that a sample in column
/// `col` and row `row` of a tile has to exceed to become white.
pub open spec fn bayer_level(col: int, row: int) -> int {
    seq![
        seq![0int, 128, 32, 160],
        seq![192int, 64, 224, 96],
        seq![48int, 176, 16, 144],
        seq![240int, 112, 208, 80],
    ][row][col]
}

/// What ordered dithering adds to the sample at `(x, y)` before the cut.
/// The matrix tiles the image, so the bias depends on `x` and `y` modulo 4.
pub open spec fn bayer_bias(x: int, y: int) -> int {
    THRESHOLD - bayer_level(x % 4, y % 4)
}

/// The image with every sample biased by its position and then cut.
pub open spec fn bayer_dithered(img: GrayView) -> GrayView {
    GrayView {
        pixels: Seq::new(
            img.pixels.len(),
            |i: int|
                quantized(
                    img.pixels[i] + bayer_bias(i % (img.width as int), i / (img.width as int)),
                ),
        ),
        ..img
    }
}

/// The ways to turn a lightness map into a black-and-white one.
#[derive(Clone, Copy, Debug, PartialEq, Eq, Structural)]
pub enum Ditherer {
    /// Two-row Sierra error diffusion.
    Sierra2Row,
    /// Ordered dithering with the 4x4 matrix.
    Bayer4x4,
    /// No dithering: the plain cut at the threshold.
    Threshold,
}

/// What a ditherer makes of an image.
pub open spec fn dithered(img: GrayView, ditherer: Ditherer) -> GrayView {
    match ditherer {
        Ditherer::Sierra2Row => sierra_dithered(img),
        Ditherer::Bayer4x4 => bayer_dithered(img),
        Ditherer::Threshold => thresholded(img),
    }
}

/// Every entry of the ordered-dither matrix lies between black and white,
/// white excluded.
pub proof fn lemma_bayer_level_range(col: int, row: int)
    requires
        0 <= col < 4,
        0 <= row < 4,
    ensures
        0 <= bayer_level(col, row) < 255,
{
    let m = seq![
        seq![0int, 128, 32, 160],
        seq![192int, 64, 224, 96],
        seq![48int, 176, 16, 144],
        seq![240int, 112, 208, 80],
    ];
    assert(m[0] == seq![0int, 128, 32, 160]);
    assert(m[1] == seq![192int, 64, 224, 96]);
    assert(m[2] == seq![48int, 176, 16, 144]);
    assert(m[3] == seq![240int, 112, 208, 80]);
}

/// Whatever the ditherer, the result has the dimensions of the image and
/// holds nothing but black and white.
pub proof fn lemma_dithered_is_binary(img: GrayView, ditherer: Ditherer)
    requires
        img.wf(),
    ensures
        dithered(img, ditherer).wf(),
        dithered(img, ditherer).width == img.width,
        dithered(img, ditherer).height == img.height,
        dithered(img, ditherer).is_binary(),
{
    match ditherer {
        Ditherer::Sierra2Row => {
            lemma_diffused_shape(img, img.pixels.len());
            lemma_sierra_is_binary(img);
        },
        Ditherer::Bayer4x4 => {},
        Ditherer::Threshold => {},
    }
}

/// Whatever the ditherer, a black-and-white image passes through
/// unchanged.
pub proof fn lemma_dithered_fixes_binary(img: GrayView, ditherer: Ditherer)
    requires
        img.wf(),
        img.is_binary(),
    ensures
        dithered(img, ditherer) == img,
{
    match ditherer {
        Ditherer::Sierra2Row => {
            lemma_sierra_fixes_binary(img);
        },
        Ditherer::Bayer4x4 => {
            let w = img.width as int;
            assert forall|i: int| 0 <= i < img.pixels.len() implies bayer_dithered(img).pixels[i]
                == img.pixels[i] by {
                lemma_bayer_level_range((i % w) % 4, (i / w) % 4);
            }
            assert(bayer_dithered(img).pixels =~= img.pixels);
        },
        Ditherer::Threshold => {
            assert(thresholded(img).pixels =~= img.pixels);
        },
    }
}

/// Dithering keeps no state: equal images give equal results, however
/// often and in whatever order they are dithered.
pub proof fn lemma_dithered_deterministic(first: GrayView, second: GrayView, ditherer: Ditherer)
    requires
        first == second,
    ensures
        dithered(first, ditherer) == dithered(second, ditherer),
{
}

/// Dithering is idempotent: a second pass of the same ditherer changes
/// nothing.
pub proof fn lemma_dithered_idempotent(img: GrayView, ditherer: Ditherer)
    requires
        img.wf(),
    ensures
        dithered(dithered(img, ditherer), ditherer) == dithered(img, ditherer),
{
    lemma_dithered_is_binary(img, ditherer);
    lemma_dithered_fixes_binary(dithered(img, ditherer), ditherer);
}

impl Ditherer {
    /// Dithers the image in place. The result is black and white, has the
    /// dimensions of the image, and depends on nothing but the image and
    /// the ditherer.
    pub fn dither(&self, buffer: &mut GrayImg)
        requires
            old(buffer).wf(),
        ensures
            final(buffer).wf(),
            final(buffer)@ == dithered(old(buffer)@, *self),
            final(buffer)@.width == old(buffer)@.width,
            final(buffer)@.height == old(buffer)@.height,
            final(buffer)@.is_binary(),
    {
        proof {
            lemma_dithered_is_binary(buffer@, *self);
        }
        match self {
            Ditherer::Sierra2Row => sierra2row(buffer),
            Ditherer::Bayer4x4 => bayer4x4(buffer),
            Ditherer::Threshold => threshold(buffer),
        }
    }
}

/// Cuts one sample at the threshold.
pub fn quantize(value: u8) -> (out: u8)
    ensures
        out == quantized(value as int),
{
    if value > THRESHOLD {
        WHITE
    } else {
        BLACK
    }
}

/// Looks up the ordered-dither matrix for a position in the image.
fn bayer_level_at(x: u32, y: u32) -> (level: u8)
    ensures
        level == bayer_level(x as int % 4, y as int % 4),
{
    let col: u32 = x % 4;
    let row: u32 = y % 4;
    if row == 0 {
        if col == 0 { 0 } else if col == 1 { 128 } else if col == 2 { 32 } else { 160 }
    } else if row == 1 {
        if col == 0 { 192 } else if col == 1 { 64 } else if col == 2 { 224 } else { 96 }
    } else if row == 2 {
        if col == 0 { 48 } else if col == 1 { 176 } else if col == 2 { 16 } else { 144 }
    } else {
        if col == 0 { 240 } else if col == 1 { 112 } else if col == 2 { 208 } else { 80 }
    }
}

/// Cuts every sample at the threshold, each on its own.
pub fn threshold(buffer: &mut GrayImg)
    requires
        old(buffer).wf(),
    ensures
        final(buffer).wf(),
        final(buffer)@ == thresholded(old(buffer)@),
{
    let width: u32 = buffer.width();
    let height: u32 = buffer.height();
    let ghost start = buffer@;
    let mut y: u32 = 0;
    while y < height
        invariant
            y <= height,
            buffer.wf(),
            buffer@.width == width == start.width,
            buffer@.height == height == start.height,
            buffer@.pixels.len() == start.pixels.len(),
            start.wf(),
            forall|i: int| 0 <= i < start.pixels.len() ==> buffer@.pixels[i] == (if i < y * width {
                quantized(start.pixels[i] as int)
            } else {
                start.pixels[i]
            }),
        decreases height - y,
    {
        let mut x: u32 = 0;
        while x < width
            invariant
                x <= width,
                y < height,
                buffer.wf(),
                buffer@.width == width == start.width,
                buffer@.height == height == start.height,
                buffer@.pixels.len() == start.pixels.len(),
                start.wf(),
                forall|i: int| 0 <= i < start.pixels.len() ==> buffer@.pixels[i] == (if i < y
                    * width + x {
                    quantized(start.pixels[i] as int)
                } else {
                    start.pixels[i]
                }),
            decreases width - x,
        {
            proof {
                lemma_index_in_range(buffer@, x as int, y as int);
            }
            let value = buffer.get_pixel(x, y);
            buffer.put_pixel(x, y, quantize(value));
            x += 1;
        }
        assert((y + 1) * width == y * width + width) by (nonlinear_arith);
        y += 1;
    }
    assert(buffer@.pixels =~= thresholded(start).pixels);
}

/// Ordered dithering with the 4x4 matrix: biases every sample by its
/// position in the tile, then cuts it.
pub fn bayer4x4(buffer: &mut GrayImg)
    requires
        old(buffer).wf(),
    ensures
        final(buffer).wf(),
        final(buffer)@ == bayer_dithered(old(buffer)@),
{
    let width: u32 = buffer.width();
    let height: u32 = buffer.height();
    let ghost start = buffer@;
    let mut y: u32 = 0;
    while y < height
        invariant
            y <= height,
            buffer.wf(),
            buffer@.width == width == start.width,
            buffer@.height == height == start.height,
            buffer@.pixels.len() == start.pixels.len(),
            start.wf(),
            forall|i: int| 0 <= i < start.pixels.len() ==> buffer@.pixels[i] == (if i < y * width {
                bayer_dithered(start).pixels[i]
            } else {
                start.pixels[i]
            }),
        decreases height - y,
    {
        let mut x: u32 = 0;
        while x < width
            invariant
                x <= width,
                y < height,
                buffer.wf(),
                buffer@.width == width == start.width,
                buffer@.height == height == start.height,
                buffer@.pixels.len() == start.pixels.len(),
                start.wf(),
                forall|i: int| 0 <= i < start.pixels.len() ==> buffer@.pixels[i] == (if i < y
                    * width + x {
                    bayer_dithered(start).pixels[i]
                } else {
                    start.pixels[i]
                }),
            decreases width - x,
        {
            proof {
                lemma_index_in_range(buffer@, x as int, y as int);
                lemma_index_coords(start, x as int, y as int);
            }
            let value = buffer.get_pixel(x, y);
            let level = bayer_level_at(x, y);
            let biased: i32 = value as i32 + (THRESHOLD as i32 - level as i32);
            let out: u8 = if biased > THRESHOLD as i32 {
                WHITE
            } else {
                BLACK
            };
            buffer.put_pixel(x, y, out);
            x += 1;
        }
        assert((y + 1) * width == y * width + width) by (nonlinear_arith);
        y += 1;
    }
    assert(buffer@.pixels =~= bayer_dithered(start).pixels);
}

} // verus!
