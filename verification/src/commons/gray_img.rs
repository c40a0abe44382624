//! A single-channel lightness map, stored row by row.

use vstd::prelude::*;
use vstd::arithmetic::div_mod::{lemma_fundamental_div_mod, lemma_fundamental_div_mod_converse};

verus! {

/// What a [`GrayImg`] is to a contract: its dimensions and its samples in
/// raster order (row by row, left to right).
pub struct GrayView {
    pub width: nat,
    pub height: nat,
    pub pixels: Seq<u8>,
}

impl GrayView {
    /// There is exactly one sample for each coordinate.
    pub open spec fn wf(self) -> bool {
        self.pixels.len() == self.width * self.height
    }

    /// Whether `(x, y)` names a sample of the image.
    pub open spec fn contains(self, x: int, y: int) -> bool {
        0 <= x < self.width && 0 <= y < self.height
    }

    /// Where the sample of column `x`, row `y` sits in raster order.
    pub open spec fn index(self, x: int, y: int) -> int {
        y * self.width + x
    }

    /// The sample at column `x` of row `y`.
    pub open spec fn at(self, x: int, y: int) -> u8 {
        self.pixels[self.index(x, y)]
    }

    /// The image with the sample at `(x, y)` replaced by `value`.
    pub open spec fn put(self, x: int, y: int, value: u8) -> GrayView {
        GrayView { pixels: self.pixels.update(self.index(x, y), value), ..self }
    }

    /// Every sample is fully black or fully white.
    pub open spec fn is_binary(self) -> bool {
        forall|i: int| 0 <= i < self.pixels.len() ==> self.pixels[i] == 0 || self.pixels[i] == 255
    }
}

/// A sample inside the image has a raster position inside the sample
/// sequence.
pub proof fn lemma_index_in_range(v: GrayView, x: int, y: int)
    requires
        v.wf(),
        v.contains(x, y),
    ensures
        0 <= v.index(x, y) < v.pixels.len(),
{
    let w = v.width as int;
    let h = v.height as int;
    assert(0 <= y * w && y * w + w <= h * w) by (nonlinear_arith)
        requires
            0 <= y < h,
            0 <= w,
    ;
}

/// Raster position and coordinates determine each other: column and row are
/// the remainder and the quotient of the position by the width.
pub proof fn lemma_index_coords(v: GrayView, x: int, y: int)
    requires
        0 <= x < v.width,
    ensures
        v.index(x, y) % (v.width as int) == x,
        v.index(x, y) / (v.width as int) == y,
{
    lemma_fundamental_div_mod_converse(v.index(x, y), v.width as int, y, x);
}

/// Every raster position of a non-empty row width is the position of its own
/// column and row.
pub proof fn lemma_coords_index(v: GrayView, i: int)
    requires
        v.wf(),
        0 <= i < v.pixels.len(),
    ensures
        v.width > 0,
        v.contains(i % (v.width as int), i / (v.width as int)),
        v.index(i % (v.width as int), i / (v.width as int)) == i,
{
    let w = v.width as int;
    let h = v.height as int;
    if w == 0 {
        assert(w * h == 0) by (nonlinear_arith)
            requires
                w == 0,
        ;
    }
    lemma_fundamental_div_mod(i, w);
    assert(w * (i / w) == (i / w) * w) by (nonlinear_arith);
    assert(0 <= i / w < h) by (nonlinear_arith)
        requires
            0 <= i < w * h,
            w > 0,
            i == w * (i / w) + i % w,
            0 <= i % w < w,
    ;
}

/// A lightness map of `width` by `height` samples, each from 0 (black) to
/// 255 (white).
pub struct GrayImg {
    width: u32,
    height: u32,
    pixels: Vec<u8>,
}

impl View for GrayImg {
    type V = GrayView;

    closed spec fn view(&self) -> GrayView {
        GrayView { width: self.width as nat, height: self.height as nat, pixels: self.pixels@ }
    }
}

impl GrayImg {
    /// The invariant of the type: the sample count matches the dimensions,
    /// which fit in 32 bits.
    pub open spec fn wf(&self) -> bool {
        &&& self@.wf()
        &&& self@.width <= u32::MAX
        &&& self@.height <= u32::MAX
    }

    /// The samples of an image are no more than a `usize` can count.
    pub proof fn lemma_len_fits(&self)
        ensures
            self@.pixels.len() <= usize::MAX,
    {
        assert(self.pixels@.len() == self.pixels.len());
    }

    /// An all-black image of the given dimensions.
    pub fn new(width: u32, height: u32) -> (img: Self)
        requires
            width * height <= usize::MAX,
        ensures
            img.wf(),
            img@.width == width,
            img@.height == height,
            img@.pixels == Seq::new((width * height) as nat, |i: int| 0u8),
    {
        let len: usize = (width as usize) * (height as usize);
        let pixels: Vec<u8> = vec![0u8; len];
        assert(pixels@ =~= Seq::new((width * height) as nat, |i: int| 0u8));
        GrayImg { width, height, pixels }
    }

    /// An image over samples given in raster order. The samples are taken
    /// only if there is exactly one for each coordinate.
    pub fn from_raw(width: u32, height: u32, pixels: Vec<u8>) -> (img: Option<Self>)
        ensures
            img is Some <==> pixels@.len() == width * height,
            img matches Some(g) ==> g.wf() && g@ == (GrayView {
                width: width as nat,
                height: height as nat,
                pixels: pixels@,
            }),
    {
        assert(0 <= width * height <= 0xFFFF_FFFF * 0xFFFF_FFFF) by (nonlinear_arith)
            requires
                0 <= width <= 0xFFFF_FFFF,
                0 <= height <= 0xFFFF_FFFF,
        ;
        let expected: u64 = (width as u64) * (height as u64);
        if pixels.len() as u64 == expected {
            Some(GrayImg { width, height, pixels })
        } else {
            None
        }
    }

    /// The number of columns.
    pub fn width(&self) -> (w: u32)
        ensures
            w == self@.width,
    {
        self.width
    }

    /// The number of rows.
    pub fn height(&self) -> (h: u32)
        ensures
            h == self@.height,
    {
        self.height
    }

    /// The samples in raster order.
    pub fn as_raw(&self) -> (pixels: &Vec<u8>)
        ensures
            pixels@ == self@.pixels,
    {
        &self.pixels
    }

    /// The sample at column `x` of row `y`.
    pub fn get_pixel(&self, x: u32, y: u32) -> (value: u8)
        requires
            self.wf(),
            self@.contains(x as int, y as int),
        ensures
            value == self@.at(x as int, y as int),
    {
        proof {
            lemma_index_in_range(self@, x as int, y as int);
            assert(self.pixels@.len() == self.pixels.len());
            assert(0 <= y * self.width) by (nonlinear_arith)
                requires
                    0 <= y,
                    0 <= self.width,
            ;
        }
        self.pixels[(y as usize) * (self.width as usize) + (x as usize)]
    }

    /// Replaces the sample at column `x` of row `y`.
    pub fn put_pixel(&mut self, x: u32, y: u32, value: u8)
        requires
            old(self).wf(),
            old(self)@.contains(x as int, y as int),
        ensures
            final(self).wf(),
            final(self)@ == old(self)@.put(x as int, y as int, value),
    {
        proof {
            lemma_index_in_range(self@, x as int, y as int);
            assert(self.pixels@.len() == self.pixels.len());
            assert(0 <= y * self.width) by (nonlinear_arith)
                requires
                    0 <= y,
                    0 <= self.width,
            ;
        }
        let i: usize = (y as usize) * (self.width as usize) + (x as usize);
        self.pixels.set(i, value);
    }
}

} // verus!
