//! Two-row Sierra error diffusion.
//!
//! The samples are visited in raster order. Each visit cuts one sample at
//! the threshold and hands a share of what the cut left over to ten
//! neighbours that come later in that order, so every decision depends on
//! all the visits before it.

use vstd::prelude::*;
use vstd::arithmetic::div_mod::{lemma_div_is_ordered, lemma_fundamental_div_mod};
use crate::commons::dithering::{quantize, quantized, THRESHOLD, WHITE};
use crate::commons::gray_img::{GrayImg, GrayView, lemma_coords_index, lemma_index_coords, lemma_index_in_range};

verus! {

/// What a cut leaves over, scaled down by 32 and rounded towards minus
/// infinity: the distance to white (never positive) for a sample that
/// becomes white, the distance to black (never negative) for one that
/// becomes black.
pub open spec fn residual(value: u8) -> int {
    if value > THRESHOLD {
        (value - WHITE) / 32
    } else {
        value as int / 32
    }
}

/// The share of the residual that the neighbour `dx` columns to the right
/// and `dy` rows below receives; 0 for every position that receives none.
pub open spec fn sierra_weight(dx: int, dy: int) -> int {
    if dy == 0 {
        if dx == 1 { 5 } else if dx == 2 { 3 } else { 0 }
    } else if dy == 1 {
        if dx == -2 || dx == 2 { 2 } else if dx == -1 || dx == 1 { 4 } else if dx == 0 { 5 } else { 0 }
    } else if dy == 2 {
        if dx == -1 || dx == 1 { 2 } else if dx == 0 { 3 } else { 0 }
    } else {
        0
    }
}

/// `value` brought into the range of a sample.
pub open spec fn clamped(value: int) -> u8 {
    if value < 0 {
        0
    } else if value > 255 {
        255
    } else {
        value as u8
    }
}

/// The sample at raster position `j` after the visit of position `k`: the
/// visited sample is cut, and every other one takes its weighted share of
/// the residual. Shares go by the distance in columns and rows, so a
/// neighbour that would lie beyond an edge is simply not there.
pub open spec fn visited_pixel(img: GrayView, k: int, j: int) -> u8 {
    let w = img.width as int;
    if j == k {
        quantized(img.pixels[k] as int)
    } else {
        clamped(img.pixels[j] + residual(img.pixels[k]) * sierra_weight(j % w - k % w, j / w - k / w))
    }
}

/// The image after the visit of raster position `k`.
pub open spec fn visited(img: GrayView, k: int) -> GrayView {
    GrayView { pixels: Seq::new(img.pixels.len(), |j: int| visited_pixel(img, k, j)), ..img }
}

/// The image after the visits of the first `n` raster positions, in order.
pub open spec fn diffused(img: GrayView, n: nat) -> GrayView
    decreases n,
{
    if n == 0 {
        img
    } else {
        visited(diffused(img, (n - 1) as nat), n - 1)
    }
}

/// The image after every sample has been visited.
pub open spec fn sierra_dithered(img: GrayView) -> GrayView {
    diffused(img, img.pixels.len())
}

/// The visits change neither the dimensions nor the number of samples.
pub proof fn lemma_diffused_shape(img: GrayView, n: nat)
    ensures
        diffused(img, n).width == img.width,
        diffused(img, n).height == img.height,
        diffused(img, n).pixels.len() == img.pixels.len(),
    decreases n,
{
    if n > 0 {
        lemma_diffused_shape(img, (n - 1) as nat);
    }
}

/// A visit is local and never wraps around an edge: it leaves alone every
/// sample other than the visited one that lies more than two columns away,
/// in a row above, or more than two rows below. Such a sample is never
/// reached from the far side of the image either, because shares go by the
/// distance in columns and rows, not by the distance in raster order.
pub proof fn lemma_visit_is_local(img: GrayView, k: int, j: int)
    requires
        img.wf(),
        0 <= k < img.pixels.len(),
        0 <= j < img.pixels.len(),
        j != k,
        ({
            let w = img.width as int;
            ||| j % w - k % w > 2
            ||| j % w - k % w < -2
            ||| j / w < k / w
            ||| j / w > k / w + 2
        }),
    ensures
        visited(img, k).pixels[j] == img.pixels[j],
{
    let w = img.width as int;
    assert(sierra_weight(j % w - k % w, j / w - k / w) == 0);
    assert(residual(img.pixels[k]) * 0 == 0);
}

/// A visit leaves alone every sample that comes before the visited one in
/// raster order: what has been decided stays decided.
pub proof fn lemma_visit_keeps_earlier(img: GrayView, k: int, j: int)
    requires
        img.wf(),
        0 <= j < k < img.pixels.len(),
    ensures
        visited(img, k).pixels[j] == img.pixels[j],
{
    let w = img.width as int;
    lemma_coords_index(img, j);
    lemma_coords_index(img, k);
    lemma_div_is_ordered(j, k, w);
    lemma_fundamental_div_mod(j, w);
    lemma_fundamental_div_mod(k, w);
    assert(j / w < k / w || (j / w == k / w && j % w < k % w));
    assert(sierra_weight(j % w - k % w, j / w - k / w) == 0);
    assert(residual(img.pixels[k]) * 0 == 0);
}

/// A visit changes nothing in an image that is black and white already:
/// its cut leaves nothing over.
pub proof fn lemma_visit_fixes_binary(img: GrayView, k: int)
    requires
        img.is_binary(),
        0 <= k < img.pixels.len(),
    ensures
        visited(img, k) == img,
{
    let w = img.width as int;
    assert(residual(img.pixels[k]) == 0);
    assert forall|j: int| 0 <= j < img.pixels.len() implies visited_pixel(img, k, j)
        == img.pixels[j] by {
        assert(0 * sierra_weight(j % w - k % w, j / w - k / w) == 0);
    }
    assert(visited(img, k).pixels =~= img.pixels);
}

/// After `n` visits the first `n` samples are black or white.
proof fn lemma_diffused_prefix_binary(img: GrayView, n: nat)
    requires
        img.wf(),
        n <= img.pixels.len(),
    ensures
        forall|j: int| 0 <= j < n ==> diffused(img, n).pixels[j] == 0 || diffused(img, n).pixels[j]
            == 255,
    decreases n,
{
    if n > 0 {
        let before = diffused(img, (n - 1) as nat);
        lemma_diffused_shape(img, (n - 1) as nat);
        lemma_diffused_prefix_binary(img, (n - 1) as nat);
        assert forall|j: int| 0 <= j < n implies diffused(img, n).pixels[j] == 0 || diffused(
            img,
            n,
        ).pixels[j] == 255 by {
            if j < n - 1 {
                lemma_visit_keeps_earlier(before, n - 1, j);
            }
        }
    }
}

/// Error diffusion yields a black-and-white image.
pub proof fn lemma_sierra_is_binary(img: GrayView)
    requires
        img.wf(),
    ensures
        sierra_dithered(img).is_binary(),
{
    lemma_diffused_shape(img, img.pixels.len());
    lemma_diffused_prefix_binary(img, img.pixels.len());
}

/// Any number of visits changes nothing in a black-and-white image.
proof fn lemma_diffused_fixes_binary(img: GrayView, n: nat)
    requires
        img.is_binary(),
        n <= img.pixels.len(),
    ensures
        diffused(img, n) == img,
    decreases n,
{
    if n > 0 {
        lemma_diffused_fixes_binary(img, (n - 1) as nat);
        lemma_visit_fixes_binary(img, n - 1);
    }
}

/// Error diffusion leaves a black-and-white image as it is.
pub proof fn lemma_sierra_fixes_binary(img: GrayView)
    requires
        img.is_binary(),
    ensures
        sierra_dithered(img) == img,
{
    lemma_diffused_fixes_binary(img, img.pixels.len());
}

/// The image with `delta` added to the sample at `(x, y)`, if there is one.
#[verifier::opaque]
spec fn with_error(img: GrayView, x: int, y: int, delta: int) -> GrayView {
    if img.contains(x, y) {
        img.put(x, y, clamped(img.at(x, y) + delta))
    } else {
        img
    }
}

/// The visit of `(x, y)` as a sequence of eleven single-sample updates.
spec fn visited_stepwise(img: GrayView, x: int, y: int) -> GrayView {
    let e = residual(img.at(x, y));
    let g0 = img.put(x, y, quantized(img.at(x, y) as int));
    let g1 = with_error(g0, x + 1, y, e * 5);
    let g2 = with_error(g1, x + 2, y, e * 3);
    let g3 = with_error(g2, x - 2, y + 1, e * 2);
    let g4 = with_error(g3, x - 1, y + 1, e * 4);
    let g5 = with_error(g4, x, y + 1, e * 5);
    let g6 = with_error(g5, x + 1, y + 1, e * 4);
    let g7 = with_error(g6, x + 2, y + 1, e * 2);
    let g8 = with_error(g7, x - 1, y + 2, e * 2);
    let g9 = with_error(g8, x, y + 2, e * 3);
    with_error(g9, x + 1, y + 2, e * 2)
}

/// Replacing the sample at `(x, y)`, read by column and row: the sample in
/// that column and row changes, the others stay.
proof fn lemma_put_by_coords(img: GrayView, x: int, y: int, value: u8)
    requires
        img.wf(),
        img.contains(x, y),
    ensures
        img.put(x, y, value).wf(),
        img.put(x, y, value).width == img.width,
        img.put(x, y, value).height == img.height,
        forall|j: int|
            0 <= j < img.pixels.len() ==> #[trigger] img.put(x, y, value).pixels[j] == (if j % (
            img.width as int) == x && j / (img.width as int) == y {
                value
            } else {
                img.pixels[j]
            }),
{
    lemma_index_in_range(img, x, y);
    lemma_index_coords(img, x, y);
    assert forall|j: int| 0 <= j < img.pixels.len() implies #[trigger] img.put(
        x,
        y,
        value,
    ).pixels[j] == (if j % (img.width as int) == x && j / (img.width as int) == y {
        value
    } else {
        img.pixels[j]
    }) by {
        lemma_coords_index(img, j);
    }
}

/// Adding to the sample at `(x, y)`, read by column and row: the sample in
/// that column and row, if the image has one, takes the clamped sum, the
/// others stay.
proof fn lemma_with_error_by_coords(img: GrayView, x: int, y: int, delta: int)
    requires
        img.wf(),
    ensures
        with_error(img, x, y, delta).wf(),
        with_error(img, x, y, delta).width == img.width,
        with_error(img, x, y, delta).height == img.height,
        forall|j: int|
            0 <= j < img.pixels.len() ==> #[trigger] with_error(img, x, y, delta).pixels[j] == (if j
                % (img.width as int) == x && j / (img.width as int) == y {
                clamped(img.pixels[j] + delta)
            } else {
                img.pixels[j]
            }),
{
    reveal(with_error);
    if img.contains(x, y) {
        lemma_put_by_coords(img, x, y, clamped(img.at(x, y) + delta));
    }
    assert forall|j: int| 0 <= j < img.pixels.len() implies #[trigger] with_error(
        img,
        x,
        y,
        delta,
    ).pixels[j] == (if j % (img.width as int) == x && j / (img.width as int) == y {
        clamped(img.pixels[j] + delta)
    } else {
        img.pixels[j]
    }) by {
        lemma_coords_index(img, j);
    }
}

/// The share of a residual `e` by distance, one case for each neighbour.
proof fn lemma_share(e: int, dx: int, dy: int)
    ensures
        e * sierra_weight(dx, dy) == (if dy == 0 && dx == 1 {
            e * 5
        } else if dy == 0 && dx == 2 {
            e * 3
        } else if dy == 1 && (dx == -2 || dx == 2) {
            e * 2
        } else if dy == 1 && (dx == -1 || dx == 1) {
            e * 4
        } else if dy == 1 && dx == 0 {
            e * 5
        } else if dy == 2 && (dx == -1 || dx == 1) {
            e * 2
        } else if dy == 2 && dx == 0 {
            e * 3
        } else {
            0
        }),
{
    assert(e * 0 == 0);
}

/// The eleven updates in sequence amount to the visit.
proof fn lemma_visit_stepwise(img: GrayView, x: int, y: int)
    requires
        img.wf(),
        img.contains(x, y),
    ensures
        visited_stepwise(img, x, y) == visited(img, img.index(x, y)),
{
    let w = img.width as int;
    let k = img.index(x, y);
    let e = residual(img.at(x, y));
    lemma_index_in_range(img, x, y);
    lemma_index_coords(img, x, y);
    let g0 = img.put(x, y, quantized(img.at(x, y) as int));
    lemma_put_by_coords(img, x, y, quantized(img.at(x, y) as int));
    let g1 = with_error(g0, x + 1, y, e * 5);
    lemma_with_error_by_coords(g0, x + 1, y, e * 5);
    let g2 = with_error(g1, x + 2, y, e * 3);
    lemma_with_error_by_coords(g1, x + 2, y, e * 3);
    let g3 = with_error(g2, x - 2, y + 1, e * 2);
    lemma_with_error_by_coords(g2, x - 2, y + 1, e * 2);
    let g4 = with_error(g3, x - 1, y + 1, e * 4);
    lemma_with_error_by_coords(g3, x - 1, y + 1, e * 4);
    let g5 = with_error(g4, x, y + 1, e * 5);
    lemma_with_error_by_coords(g4, x, y + 1, e * 5);
    let g6 = with_error(g5, x + 1, y + 1, e * 4);
    lemma_with_error_by_coords(g5, x + 1, y + 1, e * 4);
    let g7 = with_error(g6, x + 2, y + 1, e * 2);
    lemma_with_error_by_coords(g6, x + 2, y + 1, e * 2);
    let g8 = with_error(g7, x - 1, y + 2, e * 2);
    lemma_with_error_by_coords(g7, x - 1, y + 2, e * 2);
    let g9 = with_error(g8, x, y + 2, e * 3);
    lemma_with_error_by_coords(g8, x, y + 2, e * 3);
    let g10 = with_error(g9, x + 1, y + 2, e * 2);
    lemma_with_error_by_coords(g9, x + 1, y + 2, e * 2);
    assert(g10.pixels.len() == img.pixels.len());
    assert forall|j: int| 0 <= j < img.pixels.len() implies g10.pixels[j] == visited_pixel(
        img,
        k,
        j,
    ) by {
        lemma_coords_index(img, j);
        lemma_share(e, j % w - x, j / w - y);
        assert(j == k <==> (j % w == x && j / w == y));
        assert(g0.pixels[j] == (if j == k {
            quantized(img.pixels[k] as int)
        } else {
            img.pixels[j]
        }));
    }
    assert(g10.pixels =~= visited(img, k).pixels);
}

/// Adds `err * importance` to the sample at `(x, y)` and clamps the sum.
/// A coordinate that is absent or outside the image leaves the image as it
/// is.
fn add_error(img: &mut GrayImg, x: Option<u32>, y: Option<u32>, err: i32, importance: i32)
    requires
        old(img).wf(),
        -4 <= err <= 3,
        0 <= importance <= 5,
    ensures
        final(img).wf(),
        x is Some && y is Some ==> final(img)@ == with_error(
            old(img)@,
            x->0 as int,
            y->0 as int,
            err * importance,
        ),
        x is None || y is None ==> final(img)@ == old(img)@,
{
    proof {
        reveal(with_error);
    }
    if let Some(xpos) = x {
        if let Some(ypos) = y {
            if xpos < img.width() && ypos < img.height() {
                assert(-20 <= err * importance <= 15) by (nonlinear_arith)
                    requires
                        -4 <= err <= 3,
                        0 <= importance <= 5,
                ;
                let sum: i32 = img.get_pixel(xpos, ypos) as i32 + err * importance;
                let value: u8 = if sum < 0 {
                    0
                } else if sum > 255 {
                    255
                } else {
                    sum as u8
                };
                img.put_pixel(xpos, ypos, value);
            }
        }
    }
}

/// Two-row Sierra error diffusion over the whole image, in raster order.
pub fn sierra2row(buffer: &mut GrayImg)
    requires
        old(buffer).wf(),
    ensures
        final(buffer).wf(),
        final(buffer)@ == sierra_dithered(old(buffer)@),
{
    let width: u32 = buffer.width();
    let height: u32 = buffer.height();
    let ghost start = buffer@;
    let mut y: u32 = 0;
    while y < height
        invariant
            y <= height,
            buffer.wf(),
            buffer@.width == width,
            buffer@.height == height,
            0 <= y * width <= start.pixels.len(),
            start.wf(),
            start.width == width,
            start.height == height,
            buffer@ == diffused(start, (y * width) as nat),
        decreases height - y,
    {
        let mut x: u32 = 0;
        while x < width
            invariant
                x <= width,
                y < height,
                buffer.wf(),
                buffer@.width == width,
                buffer@.height == height,
                0 <= y * width,
                start.wf(),
                start.width == width,
                start.height == height,
                buffer@ == diffused(start, (y * width + x) as nat),
            decreases width - x,
        {
            let ghost before = buffer@;
            let value: u8 = buffer.get_pixel(x, y);
            let rest: i32 = if value > THRESHOLD {
                value as i32 - 255
            } else {
                value as i32
            };
            let error: i32 = rest >> 5;
            assert(rest >> 5u32 == rest / 32) by (bit_vector)
                requires
                    -255 <= rest <= 255,
            ;
            assert(error == residual(value));
            buffer.put_pixel(x, y, quantize(value));
            let y1 = y.checked_add(1);
            let y2 = y.checked_add(2);
            add_error(buffer, x.checked_add(1), Some(y), error, 5);
            add_error(buffer, x.checked_add(2), Some(y), error, 3);
            add_error(buffer, x.checked_sub(2), y1, error, 2);
            add_error(buffer, x.checked_sub(1), y1, error, 4);
            add_error(buffer, Some(x), y1, error, 5);
            add_error(buffer, x.checked_add(1), y1, error, 4);
            add_error(buffer, x.checked_add(2), y1, error, 2);
            add_error(buffer, x.checked_sub(1), y2, error, 2);
            add_error(buffer, Some(x), y2, error, 3);
            add_error(buffer, x.checked_add(1), y2, error, 2);
            proof {
                reveal(with_error);
                assert(buffer@ == visited_stepwise(before, x as int, y as int));
                lemma_visit_stepwise(before, x as int, y as int);
            }
            x += 1;
        }
        assert((y + 1) * width == y * width + width) by (nonlinear_arith);
        assert((y + 1) * width <= height * width) by (nonlinear_arith)
            requires
                y + 1 <= height,
                0 <= width,
        ;
        y += 1;
    }
    proof {
        if y * width != height * width {
            assert(false);
        }
    }
}

} // verus!
