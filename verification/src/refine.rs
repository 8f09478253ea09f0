//! Mask Refiner: greyscale morphological dilation followed by erosion,
//! applied to an erase mask before inpainting so the filled area slightly
//! overshoots the detected text instead of leaving fragments at edges.
//!
//! The morphology itself is done by an outside imaging library; this
//! module states its results exactly and verifies the composition and
//! the dimension bookkeeping around it.

use vstd::prelude::*;

verus! {

/// A greyscale image held as plain values: row-major bytes.
pub struct GreyMask {
    pub width: u32,
    pub height: u32,
    pub data: Vec<u8>,
}

impl GreyMask {
    pub open spec fn wf(self) -> bool {
        self.data@.len() == self.width * self.height
    }
}

/// The largest score among the in-bounds cells of row `yy`, columns
/// `[xlo, xhi)`; 0 when none is in bounds.
pub open spec fn window_row_max(data: Seq<u8>, w: int, yy: int, xlo: int, xhi: int) -> int
    decreases xhi - xlo,
{
    if xlo >= xhi {
        0
    } else {
        let rest = window_row_max(data, w, yy, xlo + 1, xhi);
        let v = if 0 <= xlo < w {
            data[yy * w + xlo] as int
        } else {
            0
        };
        if v > rest {
            v
        } else {
            rest
        }
    }
}

/// The largest score among the in-bounds cells of rows `[ylo, yhi)`,
/// columns `[xlo, xhi)`; 0 when the window misses the image.
pub open spec fn window_max(
    data: Seq<u8>,
    w: int,
    h: int,
    ylo: int,
    yhi: int,
    xlo: int,
    xhi: int,
) -> int
    decreases yhi - ylo,
{
    if ylo >= yhi {
        0
    } else {
        let rest = window_max(data, w, h, ylo + 1, yhi, xlo, xhi);
        let row = if 0 <= ylo < h {
            window_row_max(data, w, ylo, xlo, xhi)
        } else {
            0
        };
        if row > rest {
            row
        } else {
            rest
        }
    }
}

/// Greyscale dilation with a centered square structuring element of
/// radius `radius`: each output byte is the maximum over the in-bounds
/// part of its square neighborhood.
pub open spec fn dilated(data: Seq<u8>, width: int, height: int, radius: u8) -> Seq<u8> {
    Seq::new(
        data.len(),
        |i: int|
            (window_max(
                data,
                width,
                height,
                i / width - radius,
                i / width + radius + 1,
                i % width - radius,
                i % width + radius + 1,
            ) as u8),
    )
}

proof fn lemma_row_max_le(data: Seq<u8>, w: int, yy: int, xlo: int, xhi: int)
    ensures
        0 <= window_row_max(data, w, yy, xlo, xhi) <= 255,
    decreases xhi - xlo,
{
    if xlo < xhi {
        lemma_row_max_le(data, w, yy, xlo + 1, xhi);
    }
}

proof fn lemma_window_max_le(data: Seq<u8>, w: int, h: int, ylo: int, yhi: int, xlo: int, xhi: int)
    ensures
        0 <= window_max(data, w, h, ylo, yhi, xlo, xhi) <= 255,
    decreases yhi - ylo,
{
    if ylo < yhi {
        lemma_window_max_le(data, w, h, ylo + 1, yhi, xlo, xhi);
        if 0 <= ylo < h {
            lemma_row_max_le(data, w, ylo, xlo, xhi);
        }
    }
}

proof fn lemma_row_max_ge(data: Seq<u8>, w: int, yy: int, xlo: int, xhi: int, x: int)
    requires
        xlo <= x < xhi,
        0 <= x < w,
    ensures
        window_row_max(data, w, yy, xlo, xhi) >= data[yy * w + x],
    decreases x - xlo,
{
    if xlo < x {
        lemma_row_max_ge(data, w, yy, xlo + 1, xhi, x);
    } else {
        lemma_row_max_le(data, w, yy, xlo + 1, xhi);
    }
}

proof fn lemma_window_max_ge(
    data: Seq<u8>,
    w: int,
    h: int,
    ylo: int,
    yhi: int,
    xlo: int,
    xhi: int,
    x: int,
    y: int,
)
    requires
        ylo <= y < yhi,
        0 <= y < h,
        xlo <= x < xhi,
        0 <= x < w,
    ensures
        window_max(data, w, h, ylo, yhi, xlo, xhi) >= data[y * w + x],
    decreases y - ylo,
{
    if ylo < y {
        lemma_window_max_ge(data, w, h, ylo + 1, yhi, xlo, xhi, x, y);
    } else {
        lemma_row_max_ge(data, w, ylo, xlo, xhi, x);
        lemma_window_max_le(data, w, h, ylo + 1, yhi, xlo, xhi);
    }
}

/// Dilation only grows the mask: no pixel gets darker, whatever the
/// radius, so the refined erase region can only overshoot the detected
/// text, never undershoot it before erosion.
pub proof fn lemma_dilate_grows(data: Seq<u8>, w: int, h: int, radius: u8)
    requires
        data.len() == w * h,
        w >= 1,
    ensures
        forall|i: int|
            0 <= i < data.len() ==> data[i] <= #[trigger] dilated(data, w, h, radius)[i],
{
    assert forall|i: int| 0 <= i < data.len() implies data[i] <= #[trigger] dilated(
        data,
        w,
        h,
        radius,
    )[i] by {
        vstd::arithmetic::div_mod::lemma_fundamental_div_mod(i, w);
        vstd::arithmetic::div_mod::lemma_mod_bound(i, w);
        vstd::arithmetic::div_mod::lemma_div_pos_is_pos(i, w);
        assert(i / w < h) by (nonlinear_arith)
            requires
                w >= 1,
                i < w * h,
                i == w * (i / w) + (i % w),
                0 <= i % w,
                0 <= i / w,
        ;
        assert((i / w) * w + (i % w) == i) by (nonlinear_arith)
            requires
                i == w * (i / w) + (i % w),
        ;
        lemma_window_max_ge(
            data,
            w,
            h,
            i / w - radius,
            i / w + radius + 1,
            i % w - radius,
            i % w + radius + 1,
            i % w,
            i / w,
        );
        lemma_window_max_le(
            data,
            w,
            h,
            i / w - radius,
            i / w + radius + 1,
            i % w - radius,
            i % w + radius + 1,
        );
    }
}

/// The squared Euclidean distance between two cells.
pub open spec fn dist_sq(x1: int, y1: int, x2: int, y2: int) -> int {
    (x1 - x2) * (x1 - x2) + (y1 - y2) * (y1 - y2)
}

/// Whether some zero cell of the grid lies within Euclidean distance
/// `k` of cell `(x, y)`.
pub open spec fn near_background(data: Seq<u8>, w: int, h: int, x: int, y: int, k: u8) -> bool {
    exists|bx: int, by: int|
        0 <= bx < w && 0 <= by < h && data[by * w + bx] == 0 && #[trigger] dist_sq(x, y, bx, by)
            <= (k as int) * (k as int)
}

/// Erosion under the Euclidean distance transform with radius
/// `distance`: cells within that distance of a zero cell are cleared and
/// all others saturate, so the output is two-valued. Distances saturate
/// at 255, so the largest radius clears everything.
pub open spec fn eroded(data: Seq<u8>, width: int, height: int, distance: u8) -> Seq<u8> {
    Seq::new(
        data.len(),
        |i: int|
            if distance == 255 || near_background(
                data,
                width,
                height,
                i % width,
                i / width,
                distance,
            ) {
                0u8
            } else {
                255u8
            },
    )
}

/// Relies on imageproc::morphology::grayscale_dilate with
/// imageproc::morphology::Mask::square: each output pixel is the maximum
/// of the input over the centered `2*radius + 1` square, taking the
/// in-bounds cells only and the neutral 0 where the window misses the
/// image; dimensions are preserved. Also relies on
/// image::GrayImage::from_raw and into_raw to carry the bytes. A
/// zero-width image is excluded: grayscale_dilate walks the rows in
/// chunks of the width, and a chunk size of zero panics.
#[verifier::external_body]
fn dilate_grey(m: &GreyMask, radius: u8) -> (r: GreyMask)
    requires
        m.wf(),
        m.width >= 1,
    ensures
        r.width == m.width,
        r.height == m.height,
        r.data@.len() == m.data@.len(),
        r.data@ == dilated(m.data@, m.width as int, m.height as int, radius),
{
    let img = image::GrayImage::from_raw(m.width, m.height, m.data.clone()).unwrap();
    let mask = imageproc::morphology::Mask::square(radius);
    let out = imageproc::morphology::grayscale_dilate(&img, &mask);
    GreyMask { width: m.width, height: m.height, data: out.into_raw() }
}

/// Relies on imageproc::morphology::erode with
/// imageproc::distance_transform::Norm::L2: it stores per pixel the
/// ceiling of the true Euclidean distance to the nearest zero cell,
/// clamped to 255, then clears pixels whose stored distance is at most
/// `distance` and saturates the rest. For an integer radius k < 255,
/// `ceil(min(d, 255)) <= k` holds exactly when the squared distance is at
/// most k*k, which is what the contract states; at k == 255 everything
/// clears. Dimensions are preserved. Also relies on
/// image::GrayImage::from_raw and into_raw to carry the bytes.
#[verifier::external_body]
fn erode_grey(m: &GreyMask, distance: u8) -> (r: GreyMask)
    requires
        m.wf(),
    ensures
        r.width == m.width,
        r.height == m.height,
        r.data@.len() == m.data@.len(),
        r.data@ == eroded(m.data@, m.width as int, m.height as int, distance),
{
    let img = image::GrayImage::from_raw(m.width, m.height, m.data.clone()).unwrap();
    let out = imageproc::morphology::erode(
        &img,
        imageproc::distance_transform::Norm::L2,
        distance,
    );
    GreyMask { width: m.width, height: m.height, data: out.into_raw() }
}

/// Mask Refiner: dilates with a square structuring element, then erodes
/// by Euclidean distance. The imaging library construes
/// `dilate_kernel_size` as the element's radius, so the square's side is
/// twice that plus one. For the usual parameters (dilation comfortably
/// larger than erosion) the net effect is a smoothed, mildly enlarged
/// mask. Dimensions are preserved exactly. The mask must be at least one
/// pixel wide, which callers validate alongside their kernel parameters.
pub fn refine(mask: &GreyMask, dilate_kernel_size: u8, erode_distance: u8) -> (r: GreyMask)
    requires
        mask.wf(),
        mask.width >= 1,
    ensures
        r.wf(),
        r.width == mask.width,
        r.height == mask.height,
        r.data@ == eroded(
            dilated(mask.data@, mask.width as int, mask.height as int, dilate_kernel_size),
            mask.width as int,
            mask.height as int,
            erode_distance,
        ),
{
    let d = dilate_grey(mask, dilate_kernel_size);
    erode_grey(&d, erode_distance)
}

} // verus!
