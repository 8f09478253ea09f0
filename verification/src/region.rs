//! Region Extractor: turns a 2-D probability mask into candidate text
//! regions in original-image coordinates.
//!
//! The finder is a greedy rectangular flood, deliberately approximate:
//! cells are scanned in row-major order, and each still-active seed grows
//! a rectangle by two independent one-dimensional walks (rightward along
//! the seed row, downward along the seed column). A rectangle is accepted
//! only when its area strictly exceeds `MIN_REGION_AREA`; accepted cells
//! are cleared so no later region is seeded inside one.

use vstd::prelude::*;

use crate::Error;
use crate::PROB_SCALE;

verus! {

/// Accepted regions must strictly exceed this area, in mask cells.
pub const MIN_REGION_AREA: u32 = 9;

/// A 2-D grid of fixed-point probability scores in `[0, PROB_SCALE]`,
/// row-major, aligned to the resized detection image.
pub struct ProbMask {
    pub width: usize,
    pub height: usize,
    pub cells: Vec<u32>,
}

impl ProbMask {
    pub open spec fn wf(self) -> bool {
        &&& self.cells@.len() == self.width * self.height
        &&& forall|i: int| 0 <= i < self.cells@.len() ==> (#[trigger] self.cells@[i]) <= PROB_SCALE
    }

    /// Whether the cell at `(x, y)` scores strictly above the threshold.
    pub open spec fn active(self, threshold: u32, x: int, y: int) -> bool {
        self.cells@[y * self.width + x] > threshold
    }

    /// Validates a raw grid: the cell count must match the dimensions and
    /// every score must lie within `[0, PROB_SCALE]`.
    pub fn new(width: usize, height: usize, cells: Vec<u32>) -> (r: Result<ProbMask, Error>)
        ensures
            r is Ok <==> (ProbMask { width, height, cells }).wf(),
            r is Ok ==> r->Ok_0 == (ProbMask { width, height, cells }),
            r is Err ==> r->Err_0 == Error::DecodeFailure,
    {
        proof {
            assert((width as u128) * (height as u128) <= u128::MAX) by (nonlinear_arith)
                requires
                    (width as u128) < 0x1_0000_0000_0000_0000u128,
                    (height as u128) < 0x1_0000_0000_0000_0000u128,
            ;
        }
        if (cells.len() as u128) != (width as u128) * (height as u128) {
            return Err(Error::DecodeFailure);
        }
        let n = cells.len();
        for i in 0..n
            invariant
                n == cells@.len(),
                cells@.len() == width * height,
                forall|j: int| 0 <= j < i ==> (#[trigger] cells@[j]) <= PROB_SCALE,
        {
            if cells[i] > PROB_SCALE {
                return Err(Error::DecodeFailure);
            }
        }
        Ok(ProbMask { width, height, cells })
    }
}

/// The working cell at `(x, y)` of a row-major grid of width `w`.
pub open spec fn cell_on(work: Seq<bool>, w: int, x: int, y: int) -> bool {
    work[y * w + x]
}

/// A half-open rectangle in mask coordinates: columns `[x0, x1)`, rows
/// `[y0, y1)`.
#[derive(Clone, Copy, Debug, PartialEq, Eq, Structural)]
pub struct MaskRect {
    pub x0: usize,
    pub y0: usize,
    pub x1: usize,
    pub y1: usize,
}

impl MaskRect {
    pub open spec fn wf(self, width: int, height: int) -> bool {
        self.x0 < self.x1 <= width && self.y0 < self.y1 <= height
    }

    /// The rectangle's area in mask cells.
    pub open spec fn area(self) -> int {
        (self.x1 - self.x0) * (self.y1 - self.y0)
    }

    pub open spec fn contains(self, x: int, y: int) -> bool {
        self.x0 <= x < self.x1 && self.y0 <= y < self.y1
    }

    /// No cell lies in both rectangles.
    pub open spec fn disjoint(self, other: MaskRect) -> bool {
        self.x1 <= other.x0 || other.x1 <= self.x0 || self.y1 <= other.y0 || other.y1
            <= self.y0
    }
}

/// Whether some rectangle of the sequence contains the cell.
pub open spec fn covered(rects: Seq<MaskRect>, x: int, y: int) -> bool {
    exists|k: int| 0 <= k < rects.len() && (#[trigger] rects[k]).contains(x, y)
}

/// A rectangle grown from an active seed: its whole top row and left
/// column score above the threshold in the original mask.
pub open spec fn rect_seeded(r: MaskRect, mask: ProbMask, threshold: u32) -> bool {
    &&& forall|x: int| r.x0 <= x < r.x1 ==> #[trigger] mask.active(threshold, x, r.y0 as int)
    &&& forall|y: int| r.y0 <= y < r.y1 ==> #[trigger] mask.active(threshold, r.x0 as int, y)
}

/// Everything the extractor guarantees of its accepted rectangles: each is
/// within bounds; each strictly exceeds the minimum area; each was seeded
/// on active cells (its whole top row and left column score above the
/// threshold in the original mask); and no two overlap.
pub open spec fn rects_valid(rects: Seq<MaskRect>, mask: ProbMask, threshold: u32) -> bool {
    &&& forall|k: int|
        0 <= k < rects.len() ==> (#[trigger] rects[k]).wf(mask.width as int, mask.height as int)
    &&& forall|k: int| 0 <= k < rects.len() ==> (#[trigger] rects[k]).area() > MIN_REGION_AREA
    &&& forall|k: int| 0 <= k < rects.len() ==> rect_seeded(#[trigger] rects[k], mask, threshold)
    &&& forall|k1: int, k2: int|
        0 <= k1 < k2 < rects.len() ==> (#[trigger] rects[k1]).disjoint(#[trigger] rects[k2])
}

/// The binarized working grid: whether each cell scores strictly above
/// the threshold.
pub open spec fn binarized(mask: ProbMask, threshold: u32) -> Seq<bool> {
    Seq::new(mask.cells@.len(), |i: int| mask.cells@[i] > threshold)
}

/// The working grid with one rectangle's cells cleared.
pub open spec fn cleared(work: Seq<bool>, w: int, r: MaskRect) -> Seq<bool> {
    Seq::new(
        work.len(),
        |i: int|
            if r.contains(i % w, i / w) {
                false
            } else {
                work[i]
            },
    )
}

/// The first column at or after `x` in row `y` that is outside the grid
/// or inactive: where the rightward walk stops.
pub open spec fn walk_end_right(work: Seq<bool>, w: int, x: int, y: int) -> int
    decreases w - x,
{
    if x < 0 || x >= w || !cell_on(work, w, x, y) {
        x
    } else {
        walk_end_right(work, w, x + 1, y)
    }
}

/// The first row at or after `y` in column `x` that is outside the grid
/// or inactive: where the downward walk stops.
pub open spec fn walk_end_down(work: Seq<bool>, w: int, h: int, x: int, y: int) -> int
    decreases h - y,
{
    if y < 0 || y >= h || !cell_on(work, w, x, y) {
        y
    } else {
        walk_end_down(work, w, h, x, y + 1)
    }
}

/// The rectangles the greedy row-major scan accepts from cell index `pos`
/// onward on working grid `work`: an active cell grows a rectangle by the
/// two walks, the rectangle is kept iff its area strictly exceeds
/// `MIN_REGION_AREA`, and a kept rectangle's cells are cleared before the
/// scan continues.
pub open spec fn greedy_scan(work: Seq<bool>, w: int, h: int, pos: int) -> Seq<MaskRect>
    decreases w * h - pos,
{
    if pos < 0 || pos >= w * h {
        Seq::empty()
    } else {
        let x = pos % w;
        let y = pos / w;
        if cell_on(work, w, x, y) {
            let xm = walk_end_right(work, w, x, y);
            let ym = walk_end_down(work, w, h, x, y);
            if (xm - x) * (ym - y) > MIN_REGION_AREA {
                let r = MaskRect {
                    x0: x as usize,
                    y0: y as usize,
                    x1: xm as usize,
                    y1: ym as usize,
                };
                seq![r] + greedy_scan(cleared(work, w, r), w, h, pos + 1)
            } else {
                greedy_scan(work, w, h, pos + 1)
            }
        } else {
            greedy_scan(work, w, h, pos + 1)
        }
    }
}

/// The extractor's result: the greedy scan over the whole binarized mask.
pub open spec fn greedy_rects(mask: ProbMask, threshold: u32) -> Seq<MaskRect> {
    greedy_scan(binarized(mask, threshold), mask.width as int, mask.height as int, 0)
}

proof fn lemma_walk_end_right(work: Seq<bool>, w: int, x: int, y: int, xm: int)
    requires
        0 <= x <= xm <= w,
        forall|c: int| x <= c < xm ==> #[trigger] cell_on(work, w, c, y),
        xm < w ==> !cell_on(work, w, xm, y),
    ensures
        walk_end_right(work, w, x, y) == xm,
    decreases xm - x,
{
    if x < xm {
        lemma_walk_end_right(work, w, x + 1, y, xm);
    }
}

proof fn lemma_walk_end_down(work: Seq<bool>, w: int, h: int, x: int, y: int, ym: int)
    requires
        0 <= y <= ym <= h,
        forall|d: int| y <= d < ym ==> #[trigger] cell_on(work, w, x, d),
        ym < h ==> !cell_on(work, w, x, ym),
    ensures
        walk_end_down(work, w, h, x, y) == ym,
    decreases ym - y,
{
    if y < ym {
        lemma_walk_end_down(work, w, h, x, y + 1, ym);
    }
}

proof fn lemma_grid_divmod(w: int, x: int, y: int)
    requires
        0 <= x < w,
        0 <= y,
    ensures
        (y * w + x) % w == x,
        (y * w + x) / w == y,
{
    vstd::arithmetic::div_mod::lemma_fundamental_div_mod_converse(y * w + x, w, y, x);
}

proof fn lemma_index_coords(w: int, h: int, i: int)
    requires
        w >= 1,
        0 <= i < w * h,
    ensures
        0 <= i % w < w,
        0 <= i / w < h,
        (i / w) * w + (i % w) == i,
{
    vstd::arithmetic::div_mod::lemma_fundamental_div_mod(i, w);
    vstd::arithmetic::div_mod::lemma_mod_bound(i, w);
    vstd::arithmetic::div_mod::lemma_div_pos_is_pos(i, w);
    assert(i / w < h) by (nonlinear_arith)
        requires
            w >= 1,
            i < w * h,
            i == w * (i / w) + (i % w),
            0 <= i % w,
            0 <= i / w,
    ;
    assert((i / w) * w + (i % w) == i) by (nonlinear_arith)
        requires
            i == w * (i / w) + (i % w),
    ;
}

/// Active and not inside any accepted rectangle: such a cell is still a
/// potential seed.
pub open spec fn residual_active(
    mask: ProbMask,
    threshold: u32,
    rects: Seq<MaskRect>,
    x: int,
    y: int,
) -> bool {
    mask.active(threshold, x, y) && !covered(rects, x, y)
}

/// The number of consecutive residual-active cells rightward from `(x, y)`.
pub open spec fn run_right(
    mask: ProbMask,
    threshold: u32,
    rects: Seq<MaskRect>,
    x: int,
    y: int,
) -> int
    decreases mask.width - x,
{
    if x < 0 || x >= mask.width || !residual_active(mask, threshold, rects, x, y) {
        0
    } else {
        1 + run_right(mask, threshold, rects, x + 1, y)
    }
}

/// The number of consecutive residual-active cells downward from `(x, y)`.
pub open spec fn run_down(
    mask: ProbMask,
    threshold: u32,
    rects: Seq<MaskRect>,
    x: int,
    y: int,
) -> int
    decreases mask.height - y,
{
    if y < 0 || y >= mask.height || !residual_active(mask, threshold, rects, x, y) {
        0
    } else {
        1 + run_down(mask, threshold, rects, x, y + 1)
    }
}

/// The extractor left nothing big behind: wherever a cell is still active
/// outside every accepted rectangle, the greedy rectangle grown from it
/// would be no larger than the minimum area. A finder that accepted too
/// little could not satisfy this.
pub open spec fn rects_complete(rects: Seq<MaskRect>, mask: ProbMask, threshold: u32) -> bool {
    forall|x: int, y: int|
        (0 <= x < mask.width && 0 <= y < mask.height && #[trigger] residual_active(
            mask,
            threshold,
            rects,
            x,
            y,
        )) ==> run_right(mask, threshold, rects, x, y) * run_down(mask, threshold, rects, x, y)
            <= MIN_REGION_AREA
}

proof fn lemma_run_right_exact(
    mask: ProbMask,
    threshold: u32,
    rects: Seq<MaskRect>,
    x: int,
    y: int,
    xm: int,
)
    requires
        0 <= x <= xm <= mask.width,
        forall|c: int| x <= c < xm ==> #[trigger] residual_active(mask, threshold, rects, c, y),
        xm < mask.width ==> !residual_active(mask, threshold, rects, xm, y),
    ensures
        run_right(mask, threshold, rects, x, y) == xm - x,
    decreases xm - x,
{
    if x < xm {
        lemma_run_right_exact(mask, threshold, rects, x + 1, y, xm);
    }
}

proof fn lemma_run_down_exact(
    mask: ProbMask,
    threshold: u32,
    rects: Seq<MaskRect>,
    x: int,
    y: int,
    ym: int,
)
    requires
        0 <= y <= ym <= mask.height,
        forall|r: int| y <= r < ym ==> #[trigger] residual_active(mask, threshold, rects, x, r),
        ym < mask.height ==> !residual_active(mask, threshold, rects, x, ym),
    ensures
        run_down(mask, threshold, rects, x, y) == ym - y,
    decreases ym - y,
{
    if y < ym {
        lemma_run_down_exact(mask, threshold, rects, x, y + 1, ym);
    }
}

proof fn lemma_run_right_nonneg(mask: ProbMask, threshold: u32, rects: Seq<MaskRect>, x: int, y: int)
    ensures
        run_right(mask, threshold, rects, x, y) >= 0,
    decreases mask.width - x,
{
    if !(x < 0 || x >= mask.width || !residual_active(mask, threshold, rects, x, y)) {
        lemma_run_right_nonneg(mask, threshold, rects, x + 1, y);
    }
}

proof fn lemma_run_down_nonneg(mask: ProbMask, threshold: u32, rects: Seq<MaskRect>, x: int, y: int)
    ensures
        run_down(mask, threshold, rects, x, y) >= 0,
    decreases mask.height - y,
{
    if !(y < 0 || y >= mask.height || !residual_active(mask, threshold, rects, x, y)) {
        lemma_run_down_nonneg(mask, threshold, rects, x, y + 1);
    }
}

proof fn lemma_run_right_monotone(
    mask: ProbMask,
    threshold: u32,
    rects1: Seq<MaskRect>,
    rects2: Seq<MaskRect>,
    x: int,
    y: int,
)
    requires
        forall|cx: int, cy: int| covered(rects1, cx, cy) ==> #[trigger] covered(rects2, cx, cy),
    ensures
        run_right(mask, threshold, rects2, x, y) <= run_right(mask, threshold, rects1, x, y),
    decreases mask.width - x,
{
    lemma_run_right_nonneg(mask, threshold, rects1, x, y);
    if !(x < 0 || x >= mask.width || !residual_active(mask, threshold, rects2, x, y)) {
        assert(residual_active(mask, threshold, rects1, x, y));
        lemma_run_right_monotone(mask, threshold, rects1, rects2, x + 1, y);
    }
}

proof fn lemma_run_down_monotone(
    mask: ProbMask,
    threshold: u32,
    rects1: Seq<MaskRect>,
    rects2: Seq<MaskRect>,
    x: int,
    y: int,
)
    requires
        forall|cx: int, cy: int| covered(rects1, cx, cy) ==> #[trigger] covered(rects2, cx, cy),
    ensures
        run_down(mask, threshold, rects2, x, y) <= run_down(mask, threshold, rects1, x, y),
    decreases mask.height - y,
{
    lemma_run_down_nonneg(mask, threshold, rects1, x, y);
    if !(y < 0 || y >= mask.height || !residual_active(mask, threshold, rects2, x, y)) {
        assert(residual_active(mask, threshold, rects1, x, y));
        lemma_run_down_monotone(mask, threshold, rects1, rects2, x, y + 1);
    }
}

/// No rectangle can be accepted from a mask with no cell above the
/// threshold: every accepted rectangle's seed cell is active.
pub proof fn lemma_quiet_mask_empty(rects: Seq<MaskRect>, mask: ProbMask, threshold: u32)
    requires
        rects_valid(rects, mask, threshold),
        forall|x: int, y: int|
            0 <= x < mask.width && 0 <= y < mask.height ==> !(#[trigger] mask.active(
                threshold,
                x,
                y,
            )),
    ensures
        rects.len() == 0,
{
    if rects.len() > 0 {
        let r = rects[0];
        assert(rect_seeded(r, mask, threshold));
        assert(r.wf(mask.width as int, mask.height as int));
        assert(mask.active(threshold, r.x0 as int, r.y0 as int));
    }
}

proof fn lemma_grid(w: int, h: int, x: int, y: int)
    requires
        0 <= x < w,
        0 <= y < h,
    ensures
        0 <= y * w + x < w * h,
{
    assert(y * w + x < w * h) by (nonlinear_arith)
        requires
            0 <= x < w,
            0 <= y < h,
    ;
    assert(0 <= y * w + x) by (nonlinear_arith)
        requires
            0 <= x,
            0 <= y,
            0 < w,
    ;
}

proof fn lemma_grid_inj(w: int, x1: int, y1: int, x2: int, y2: int)
    requires
        0 <= x1 < w,
        0 <= x2 < w,
        0 <= y1,
        0 <= y2,
        y1 * w + x1 == y2 * w + x2,
    ensures
        x1 == x2 && y1 == y2,
{
    assert(x1 == x2 && y1 == y2) by (nonlinear_arith)
        requires
            0 <= x1 < w,
            0 <= x2 < w,
            0 <= y1,
            0 <= y2,
            y1 * w + x1 == y2 * w + x2,
    ;
}

fn binarize(mask: &ProbMask, threshold: u32) -> (work: Vec<bool>)
    requires
        mask.wf(),
    ensures
        work@.len() == mask.cells@.len(),
        forall|i: int| 0 <= i < work@.len() ==> (#[trigger] work@[i]) == (mask.cells@[i] > threshold),
{
    let mut work: Vec<bool> = Vec::new();
    let n = mask.cells.len();
    for i in 0..n
        invariant
            n == mask.cells@.len(),
            work@.len() == i,
            forall|j: int| 0 <= j < i ==> (#[trigger] work@[j]) == (mask.cells@[j] > threshold),
    {
        work.push(mask.cells[i] > threshold);
    }
    work
}

fn walk_right(work: &Vec<bool>, w: usize, h: usize, x: usize, y: usize) -> (xm: usize)
    requires
        work@.len() == w * h,
        x < w,
        y < h,
        cell_on(work@, w as int, x as int, y as int),
    ensures
        x < xm <= w,
        forall|c: int| x <= c < xm ==> #[trigger] cell_on(work@, w as int, c, y as int),
        xm < w ==> !cell_on(work@, w as int, xm as int, y as int),
{
    let n = work.len();
    let mut c = x;
    let mut stop = false;
    while !stop && c < w
        invariant
            work@.len() == w * h,
            n == work@.len(),
            x < w,
            y < h,
            x <= c <= w,
            forall|d: int| x <= d < c ==> #[trigger] cell_on(work@, w as int, d, y as int),
            stop ==> c < w && !cell_on(work@, w as int, c as int, y as int),
            stop ==> x < c,
            cell_on(work@, w as int, x as int, y as int),
        decreases 2 * (w - c) + (if stop { 0int } else { 1int }),
    {
        proof {
            lemma_grid(w as int, h as int, c as int, y as int);
        }
        if work[y * w + c] {
            proof {
                assert(cell_on(work@, w as int, c as int, y as int));
            }
            c += 1;
        } else {
            proof {
                assert(!cell_on(work@, w as int, c as int, y as int));
            }
            stop = true;
        }
    }
    c
}

fn walk_down(work: &Vec<bool>, w: usize, h: usize, x: usize, y: usize) -> (ym: usize)
    requires
        work@.len() == w * h,
        x < w,
        y < h,
        cell_on(work@, w as int, x as int, y as int),
    ensures
        y < ym <= h,
        forall|r: int| y <= r < ym ==> #[trigger] cell_on(work@, w as int, x as int, r),
        ym < h ==> !cell_on(work@, w as int, x as int, ym as int),
{
    let n = work.len();
    let mut r = y;
    let mut stop = false;
    while !stop && r < h
        invariant
            work@.len() == w * h,
            n == work@.len(),
            x < w,
            y < h,
            y <= r <= h,
            forall|d: int| y <= d < r ==> #[trigger] cell_on(work@, w as int, x as int, d),
            stop ==> r < h && !cell_on(work@, w as int, x as int, r as int),
            stop ==> y < r,
            cell_on(work@, w as int, x as int, y as int),
        decreases 2 * (h - r) + (if stop { 0int } else { 1int }),
    {
        proof {
            lemma_grid(w as int, h as int, x as int, r as int);
        }
        if work[r * w + x] {
            proof {
                assert(cell_on(work@, w as int, x as int, r as int));
            }
            r += 1;
        } else {
            proof {
                assert(!cell_on(work@, w as int, x as int, r as int));
            }
            stop = true;
        }
    }
    r
}

fn clear_rect(work: &mut Vec<bool>, w: usize, h: usize, r: MaskRect)
    requires
        old(work)@.len() == w * h,
        r.wf(w as int, h as int),
    ensures
        final(work)@.len() == old(work)@.len(),
        forall|x: int, y: int|
            0 <= x < w && 0 <= y < h ==> (#[trigger] cell_on(final(work)@, w as int, x, y)) == if r.contains(
                x,
                y,
            ) {
                false
            } else {
                cell_on(old(work)@, w as int, x, y)
            },
{
    let n = work.len();
    let mut yy = r.y0;
    while yy < r.y1
        invariant
            work@.len() == w * h,
            n == work@.len(),
            r.wf(w as int, h as int),
            r.y0 <= yy <= r.y1,
            forall|x: int, y: int|
                0 <= x < w && 0 <= y < h ==> (#[trigger] cell_on(work@, w as int, x, y)) == if r.contains(
                    x,
                    y,
                ) && y < yy {
                    false
                } else {
                    cell_on(old(work)@, w as int, x, y)
                },
        decreases r.y1 - yy,
    {
        let mut xx = r.x0;
        while xx < r.x1
            invariant
                work@.len() == w * h,
                n == work@.len(),
                r.wf(w as int, h as int),
                r.y0 <= yy < r.y1,
                r.x0 <= xx <= r.x1,
                forall|x: int, y: int|
                    0 <= x < w && 0 <= y < h ==> (#[trigger] cell_on(work@, w as int, x, y)) == if r.contains(
                        x,
                        y,
                    ) && (y < yy || (y == yy && x < xx)) {
                        false
                    } else {
                        cell_on(old(work)@, w as int, x, y)
                    },
            decreases r.x1 - xx,
        {
            proof {
                lemma_grid(w as int, h as int, xx as int, yy as int);
            }
            let ghost pre = work@;
            work[yy * w + xx] = false;
            proof {
                assert(work@ == pre.update(yy * w + xx, false));
                assert forall|x: int, y: int| 0 <= x < w && 0 <= y < h implies (
                #[trigger] cell_on(work@, w as int, x, y)) == if r.contains(x, y) && (y < yy || (
                y == yy && x < xx + 1)) {
                    false
                } else {
                    cell_on(old(work)@, w as int, x, y)
                } by {
                    lemma_grid(w as int, h as int, x, y);
                    assert(cell_on(pre, w as int, x, y) == pre[y * w + x]);
                    if y * w + x == yy * w + xx {
                        lemma_grid_inj(w as int, x, y, xx as int, yy as int);
                    }
                }
            }
            xx += 1;
        }
        yy += 1;
    }
}

/// The greedy rectangular flood. Scans cells in row-major order; each
/// still-active seed grows a rectangle by a rightward walk along its row
/// and a downward walk along its column; the rectangle is accepted iff its
/// area strictly exceeds `MIN_REGION_AREA`, and accepted cells are cleared
/// so no later rectangle is seeded inside one.
pub fn find_rects(mask: &ProbMask, threshold: u32) -> (rects: Vec<MaskRect>)
    requires
        mask.wf(),
    ensures
        rects@ == greedy_rects(*mask, threshold),
        rects_valid(rects@, *mask, threshold),
        rects_complete(rects@, *mask, threshold),
{
    let w = mask.width;
    let h = mask.height;
    let mut work = binarize(mask, threshold);
    let n_cells = work.len();
    proof {
        assert(w * h <= usize::MAX);
    }
    let mut rects: Vec<MaskRect> = Vec::new();
    proof {
        assert forall|x2: int, y2: int| 0 <= x2 < w && 0 <= y2 < h implies (#[trigger] cell_on(
            work@,
            w as int,
            x2,
            y2,
        )) == (mask.active(threshold, x2, y2) && !covered(rects@, x2, y2)) by {
            lemma_grid(w as int, h as int, x2, y2);
        }
        assert(work@ =~= binarized(*mask, threshold));
        assert(rects@ + greedy_scan(work@, w as int, h as int, 0) =~= greedy_scan(
            work@,
            w as int,
            h as int,
            0,
        ));
    }
    let mut y: usize = 0;
    while y < h
        invariant
            w == mask.width,
            h == mask.height,
            mask.wf(),
            work@.len() == w * h,
            w * h <= usize::MAX,
            y <= h,
            rects_valid(rects@, *mask, threshold),
            forall|x2: int, y2: int|
                0 <= x2 < w && 0 <= y2 < h ==> (#[trigger] cell_on(work@, w as int, x2, y2)) == (
                mask.active(threshold, x2, y2) && !covered(rects@, x2, y2)),
            forall|k: int| 0 <= k < rects@.len() ==> (#[trigger] rects@[k]).y0 <= y,
            forall|cx: int, cy: int|
                (0 <= cx < w && 0 <= cy < h && cy < y && #[trigger] residual_active(
                    *mask,
                    threshold,
                    rects@,
                    cx,
                    cy,
                )) ==> run_right(*mask, threshold, rects@, cx, cy) * run_down(
                    *mask,
                    threshold,
                    rects@,
                    cx,
                    cy,
                ) <= MIN_REGION_AREA,
            greedy_rects(*mask, threshold) == rects@ + greedy_scan(
                work@,
                w as int,
                h as int,
                y * w,
            ),
        decreases h - y,
    {
        let mut x: usize = 0;
        while x < w
            invariant
                w == mask.width,
                h == mask.height,
                mask.wf(),
                work@.len() == w * h,
                w * h <= usize::MAX,
                y < h,
                x <= w,
                rects_valid(rects@, *mask, threshold),
                forall|x2: int, y2: int|
                    0 <= x2 < w && 0 <= y2 < h ==> (#[trigger] cell_on(work@, w as int, x2, y2))
                        == (mask.active(threshold, x2, y2) && !covered(rects@, x2, y2)),
                forall|k: int| 0 <= k < rects@.len() ==> (#[trigger] rects@[k]).y0 <= y,
                forall|cx: int, cy: int|
                    (0 <= cx < w && 0 <= cy < h && (cy < y || (cy == y && cx < x))
                        && #[trigger] residual_active(*mask, threshold, rects@, cx, cy))
                        ==> run_right(*mask, threshold, rects@, cx, cy) * run_down(
                        *mask,
                        threshold,
                        rects@,
                        cx,
                        cy,
                    ) <= MIN_REGION_AREA,
                greedy_rects(*mask, threshold) == rects@ + greedy_scan(
                    work@,
                    w as int,
                    h as int,
                    y * w + x,
                ),
            decreases w - x,
        {
            proof {
                lemma_grid(w as int, h as int, x as int, y as int);
                lemma_grid_divmod(w as int, x as int, y as int);
            }
            if work[y * w + x] {
                proof {
                    assert(cell_on(work@, w as int, x as int, y as int));
                }
                let xm = walk_right(&work, w, h, x, y);
                let ym = walk_down(&work, w, h, x, y);
                proof {
                    vstd::arithmetic::mul::lemma_mul_upper_bound(
                        xm - x,
                        w as int,
                        ym - y,
                        h as int,
                    );
                }
                let area = (xm - x) * (ym - y);
                if area <= MIN_REGION_AREA as usize {
                    // Rejected: the cell stays residual-active, but the
                    // rectangle the greedy walks grow from it is too small.
                    proof {
                        assert forall|c: int| x <= c < xm implies #[trigger] residual_active(
                            *mask,
                            threshold,
                            rects@,
                            c,
                            y as int,
                        ) by {
                            assert(cell_on(work@, w as int, c, y as int));
                        }
                        assert forall|d: int| y <= d < ym implies #[trigger] residual_active(
                            *mask,
                            threshold,
                            rects@,
                            x as int,
                            d,
                        ) by {
                            assert(cell_on(work@, w as int, x as int, d));
                        }
                        if xm < w {
                            assert(!cell_on(work@, w as int, xm as int, y as int));
                            assert(!residual_active(*mask, threshold, rects@, xm as int, y as int));
                        }
                        if ym < h {
                            assert(!cell_on(work@, w as int, x as int, ym as int));
                            assert(!residual_active(*mask, threshold, rects@, x as int, ym as int));
                        }
                        lemma_run_right_exact(*mask, threshold, rects@, x as int, y as int, xm as int);
                        lemma_run_down_exact(*mask, threshold, rects@, x as int, y as int, ym as int);
                        lemma_walk_end_right(work@, w as int, x as int, y as int, xm as int);
                        lemma_walk_end_down(work@, w as int, h as int, x as int, y as int, ym as int);
                        assert(greedy_scan(work@, w as int, h as int, y * w + x) == greedy_scan(
                            work@,
                            w as int,
                            h as int,
                            y * w + x + 1,
                        ));
                    }
                }
                if area > MIN_REGION_AREA as usize {
                    let r = MaskRect { x0: x, y0: y, x1: xm, y1: ym };
                    proof {
                        let rs = rects@;
                        // The top row and left column of the new rectangle are
                        // active in the working mask, hence active in the
                        // original mask and covered by no accepted rectangle.
                        assert forall|c: int| r.x0 <= c < r.x1 implies #[trigger] mask.active(
                            threshold,
                            c,
                            r.y0 as int,
                        ) by {
                            assert(cell_on(work@, w as int, c, y as int));
                        }
                        assert forall|d: int| r.y0 <= d < r.y1 implies #[trigger] mask.active(
                            threshold,
                            r.x0 as int,
                            d,
                        ) by {
                            assert(cell_on(work@, w as int, x as int, d));
                        }
                        assert(rect_seeded(r, *mask, threshold));
                        assert forall|c: int| x <= c < xm implies !covered(rs, c, y as int) by {
                            assert(cell_on(work@, w as int, c, y as int));
                        }
                        // The new rectangle is disjoint from every accepted one:
                        // either the accepted rectangle's rows end at or above
                        // the seed row, or the seed row crosses it and the new
                        // top row, being uncovered, cannot meet its columns.
                        assert forall|k: int| 0 <= k < rs.len() implies (#[trigger] rs[k]).disjoint(
                            r,
                        ) by {
                            let q = rs[k];
                            assert(q.y0 <= y);
                            if y < q.y1 {
                                if !(r.x1 <= q.x0 || q.x1 <= r.x0) {
                                    let c: int = if x as int >= q.x0 as int {
                                        x as int
                                    } else {
                                        q.x0 as int
                                    };
                                    assert(x <= c < xm);
                                    assert(q.contains(c, y as int));
                                    assert(covered(rs, c, y as int));
                                }
                            }
                        }
                    }
                    proof {
                        lemma_walk_end_right(work@, w as int, x as int, y as int, xm as int);
                        lemma_walk_end_down(work@, w as int, h as int, x as int, y as int, ym as int);
                    }
                    let ghost old_rects = rects@;
                    let ghost old_work = work@;
                    clear_rect(&mut work, w, h, r);
                    rects.push(r);
                    proof {
                        let rs2 = rects@;
                        assert(rs2 == old_rects.push(r));
                        let wi = w as int;
                        let hi = h as int;
                        assert forall|i: int| 0 <= i < work@.len() implies work@[i] == (cleared(
                            old_work,
                            wi,
                            r,
                        )[i]) by {
                            lemma_index_coords(wi, hi, i);
                            assert(cell_on(work@, wi, i % wi, i / wi) == work@[i]);
                            assert(cell_on(old_work, wi, i % wi, i / wi) == old_work[i]);
                        }
                        assert(work@ =~= cleared(old_work, wi, r));
                        assert(greedy_scan(old_work, wi, hi, y * w + x) == seq![r] + greedy_scan(
                            cleared(old_work, wi, r),
                            wi,
                            hi,
                            y * w + x + 1,
                        ));
                        assert(old_rects + (seq![r] + greedy_scan(work@, wi, hi, y * w + x + 1))
                            =~= rs2 + greedy_scan(work@, wi, hi, y * w + x + 1));
                        assert(greedy_rects(*mask, threshold) == rs2 + greedy_scan(
                            work@,
                            wi,
                            hi,
                            y * w + x + 1,
                        ));
                        assert forall|x2: int, y2: int| 0 <= x2 < w && 0 <= y2 < h implies (
                        covered(rs2, x2, y2) == (covered(old_rects, x2, y2) || r.contains(
                            x2,
                            y2,
                        ))) by {
                            if covered(old_rects, x2, y2) {
                                let k = choose|k: int|
                                    0 <= k < old_rects.len() && (#[trigger] old_rects[k]).contains(
                                        x2,
                                        y2,
                                    );
                                assert(rs2[k].contains(x2, y2));
                                assert(covered(rs2, x2, y2));
                            }
                            if r.contains(x2, y2) {
                                assert(rs2[old_rects.len() as int].contains(x2, y2));
                                assert(covered(rs2, x2, y2));
                            }
                            if covered(rs2, x2, y2) {
                                let k = choose|k: int|
                                    0 <= k < rs2.len() && (#[trigger] rs2[k]).contains(x2, y2);
                                if k < old_rects.len() {
                                    assert(old_rects[k].contains(x2, y2));
                                    assert(covered(old_rects, x2, y2));
                                }
                            }
                        }
                        assert forall|x2: int, y2: int| 0 <= x2 < w && 0 <= y2 < h implies (
                        #[trigger] cell_on(work@, w as int, x2, y2)) == (mask.active(
                            threshold,
                            x2,
                            y2,
                        ) && !covered(rs2, x2, y2)) by {
                            lemma_grid(w as int, h as int, x2, y2);
                        }
                        assert forall|k1: int, k2: int| 0 <= k1 < k2 < rs2.len() implies (
                        #[trigger] rs2[k1]).disjoint(#[trigger] rs2[k2]) by {
                            if k2 < old_rects.len() {
                                assert(old_rects[k1].disjoint(old_rects[k2]));
                            } else {
                                assert(old_rects[k1].disjoint(r));
                            }
                        }
                        assert forall|k: int| 0 <= k < rs2.len() implies rect_seeded(
                            #[trigger] rs2[k],
                            *mask,
                            threshold,
                        ) by {
                            if k < old_rects.len() {
                                assert(rect_seeded(old_rects[k], *mask, threshold));
                            }
                        }
                        assert(rects_valid(rs2, *mask, threshold));
                        // Every earlier cell's greedy walks only shrink now
                        // that one more rectangle is cleared, and the seed
                        // itself is covered by the new rectangle.
                        assert forall|cx: int, cy: int|
                            covered(old_rects, cx, cy) implies #[trigger] covered(
                            rs2,
                            cx,
                            cy,
                        ) by {
                            let k = choose|k: int|
                                0 <= k < old_rects.len() && (#[trigger] old_rects[k]).contains(
                                    cx,
                                    cy,
                                );
                            assert(rs2[k].contains(cx, cy));
                        }
                        assert forall|cx: int, cy: int|
                            (0 <= cx < w && 0 <= cy < h && (cy < y || (cy == y && cx < x + 1))
                                && #[trigger] residual_active(
                                *mask,
                                threshold,
                                rs2,
                                cx,
                                cy,
                            )) implies run_right(*mask, threshold, rs2, cx, cy) * run_down(
                            *mask,
                            threshold,
                            rs2,
                            cx,
                            cy,
                        ) <= MIN_REGION_AREA by {
                            assert(!(cx == x && cy == y)) by {
                                assert(r.contains(x as int, y as int));
                            }
                            assert(residual_active(*mask, threshold, old_rects, cx, cy));
                            assert(run_right(*mask, threshold, old_rects, cx, cy) * run_down(
                                *mask,
                                threshold,
                                old_rects,
                                cx,
                                cy,
                            ) <= MIN_REGION_AREA);
                            lemma_run_right_monotone(*mask, threshold, old_rects, rs2, cx, cy);
                            lemma_run_down_monotone(*mask, threshold, old_rects, rs2, cx, cy);
                            lemma_run_right_nonneg(*mask, threshold, rs2, cx, cy);
                            lemma_run_down_nonneg(*mask, threshold, rs2, cx, cy);
                            vstd::arithmetic::mul::lemma_mul_upper_bound(
                                run_right(*mask, threshold, rs2, cx, cy),
                                run_right(*mask, threshold, old_rects, cx, cy),
                                run_down(*mask, threshold, rs2, cx, cy),
                                run_down(*mask, threshold, old_rects, cx, cy),
                            );
                        }
                    }
                }
            } else {
                proof {
                    assert(!cell_on(work@, w as int, x as int, y as int));
                    assert(!residual_active(*mask, threshold, rects@, x as int, y as int));
                    assert(greedy_scan(work@, w as int, h as int, y * w + x) == greedy_scan(
                        work@,
                        w as int,
                        h as int,
                        y * w + x + 1,
                    ));
                }
            }
            x += 1;
        }
        proof {
            assert((y + 1) * (w as int) == y * (w as int) + w) by (nonlinear_arith);
        }
        y += 1;
    }
    proof {
        assert(greedy_scan(work@, w as int, h as int, h * w) == Seq::<MaskRect>::empty());
        assert(rects@ + Seq::<MaskRect>::empty() =~= rects@);
        assert(rects_complete(rects@, *mask, threshold));
    }
    rects
}

/// A candidate text region: a polygon in original-image pixel
/// coordinates, in top-left, top-right, bottom-right, bottom-left order.
pub struct CandidateRegion {
    pub points: Vec<(u32, u32)>,
}

/// A mask coordinate mapped back to original-image space: multiplied by
/// the original dimension, divided by the resized (mask) dimension,
/// rounded down to whole pixels. Exact — no intermediate ratio is
/// quantized — so mapped coordinates never leave the original image.
pub open spec fn unscale(v: int, orig: int, resized: int) -> int {
    v * orig / resized
}

/// The four corners of a mask rectangle in original-image space, in
/// top-left, top-right, bottom-right, bottom-left order.
pub open spec fn region_points(
    r: MaskRect,
    orig_w: u32,
    orig_h: u32,
    rw: int,
    rh: int,
) -> Seq<(u32, u32)> {
    seq![
        ((unscale(r.x0 as int, orig_w as int, rw) as u32, unscale(
            r.y0 as int,
            orig_h as int,
            rh,
        ) as u32)),
        ((unscale(r.x1 as int, orig_w as int, rw) as u32, unscale(
            r.y0 as int,
            orig_h as int,
            rh,
        ) as u32)),
        ((unscale(r.x1 as int, orig_w as int, rw) as u32, unscale(
            r.y1 as int,
            orig_h as int,
            rh,
        ) as u32)),
        ((unscale(r.x0 as int, orig_w as int, rw) as u32, unscale(
            r.y1 as int,
            orig_h as int,
            rh,
        ) as u32)),
    ]
}

/// Four corners forming an axis-aligned rectangle in top-left, top-right,
/// bottom-right, bottom-left order, with non-decreasing spans. The spans
/// may collapse: mapping a mask larger than the original floors distinct
/// mask columns onto the same original pixel.
pub open spec fn corners_ordered(ps: Seq<(u32, u32)>) -> bool {
    &&& ps.len() == 4
    &&& ps[0].1 == ps[1].1
    &&& ps[2].1 == ps[3].1
    &&& ps[0].0 == ps[3].0
    &&& ps[1].0 == ps[2].0
    &&& ps[0].0 <= ps[1].0
    &&& ps[0].1 <= ps[3].1
}

/// Every corner lies within the original image's dimensions.
pub open spec fn corners_within(ps: Seq<(u32, u32)>, orig_w: u32, orig_h: u32) -> bool {
    forall|q: int|
        0 <= q < ps.len() ==> (#[trigger] ps[q]).0 <= orig_w && ps[q].1 <= orig_h
}

proof fn lemma_unscale_bounds(v: int, orig: int, resized: int)
    requires
        0 <= v <= resized,
        1 <= resized,
        0 <= orig,
    ensures
        0 <= unscale(v, orig, resized) <= orig,
{
    vstd::arithmetic::mul::lemma_mul_inequality(v, resized, orig);
    vstd::arithmetic::div_mod::lemma_div_is_ordered(v * orig, resized * orig, resized);
    vstd::arithmetic::div_mod::lemma_div_multiples_vanish(orig, resized);
    vstd::arithmetic::div_mod::lemma_div_pos_is_pos(v * orig, resized);
    vstd::arithmetic::mul::lemma_mul_nonnegative(v, orig);
}

proof fn lemma_unscale_monotone(v1: int, v2: int, orig: int, resized: int)
    requires
        0 <= v1 <= v2,
        1 <= resized,
        0 <= orig,
    ensures
        unscale(v1, orig, resized) <= unscale(v2, orig, resized),
{
    vstd::arithmetic::mul::lemma_mul_inequality(v1, v2, orig);
    vstd::arithmetic::div_mod::lemma_div_is_ordered(v1 * orig, v2 * orig, resized);
}

/// The mapped corners of an in-bounds rectangle are ordered and stay
/// within the original image.
pub proof fn lemma_region_points_shape(r: MaskRect, orig_w: u32, orig_h: u32, rw: int, rh: int)
    requires
        r.x0 <= r.x1 <= rw,
        r.y0 <= r.y1 <= rh,
        1 <= rw,
        1 <= rh,
    ensures
        corners_ordered(region_points(r, orig_w, orig_h, rw, rh)),
        corners_within(region_points(r, orig_w, orig_h, rw, rh), orig_w, orig_h),
{
    lemma_unscale_bounds(r.x0 as int, orig_w as int, rw);
    lemma_unscale_bounds(r.x1 as int, orig_w as int, rw);
    lemma_unscale_bounds(r.y0 as int, orig_h as int, rh);
    lemma_unscale_bounds(r.y1 as int, orig_h as int, rh);
    lemma_unscale_monotone(r.x0 as int, r.x1 as int, orig_w as int, rw);
    lemma_unscale_monotone(r.y0 as int, r.y1 as int, orig_h as int, rh);
}

fn unscale_exec(v: usize, orig: u32, resized: usize) -> (r: u32)
    requires
        v <= resized,
        1 <= resized,
        resized <= 1_000_000,
    ensures
        r == unscale(v as int, orig as int, resized as int),
        r <= orig,
{
    proof {
        assert((v as u64) * (orig as u64) <= u64::MAX) by (nonlinear_arith)
            requires
                v <= 1_000_000,
                (orig as u64) <= 0xFFFF_FFFFu64,
        ;
        lemma_unscale_bounds(v as int, orig as int, resized as int);
    }
    let num = (v as u64) * (orig as u64);
    ((num / (resized as u64)) as u32)
}

fn scale_region(r: &MaskRect, orig_w: u32, orig_h: u32, rw: usize, rh: usize) -> (cr:
    CandidateRegion)
    requires
        r.x0 <= r.x1 <= rw,
        r.y0 <= r.y1 <= rh,
        1 <= rw <= 1_000_000,
        1 <= rh <= 1_000_000,
    ensures
        cr.points@ == region_points(*r, orig_w, orig_h, rw as int, rh as int),
{
    let xa = unscale_exec(r.x0, orig_w, rw);
    let xb = unscale_exec(r.x1, orig_w, rw);
    let ya = unscale_exec(r.y0, orig_h, rh);
    let yb = unscale_exec(r.y1, orig_h, rh);
    let mut points: Vec<(u32, u32)> = Vec::new();
    points.push((xa, ya));
    points.push((xb, ya));
    points.push((xb, yb));
    points.push((xa, yb));
    proof {
        assert(points@ =~= region_points(*r, orig_w, orig_h, rw as int, rh as int));
    }
    CandidateRegion { points }
}

/// The returned regions are exactly the given rectangles' corners mapped
/// into original-image space, one region per rectangle, in order.
pub open spec fn regions_match(
    regions: Seq<CandidateRegion>,
    rs: Seq<MaskRect>,
    orig_w: u32,
    orig_h: u32,
    rw: int,
    rh: int,
) -> bool {
    &&& regions.len() == rs.len()
    &&& forall|j: int|
        0 <= j < rs.len() ==> (#[trigger] regions[j]).points@ == region_points(
            rs[j],
            orig_w,
            orig_h,
            rw,
            rh,
        )
}

/// Region Extractor: binarizes the mask at `threshold`, runs the greedy
/// row-major flood, and maps each accepted rectangle's corners from mask
/// space back to original-image space by `corner * original / resized`,
/// rounded down. The returned regions are exactly the greedy scan's
/// rectangles, in scan order; those rectangles are in-bounds, each
/// strictly above the minimum area, seeded on active cells, pairwise
/// disjoint, and leave nothing larger behind. Every region's corners are
/// ordered top-left, top-right, bottom-right, bottom-left and stay within
/// the original dimensions; a mask with no active cell yields no regions.
pub fn extract(mask: &ProbMask, threshold: u32, orig_h: u32, orig_w: u32) -> (regions: Vec<
    CandidateRegion,
>)
    requires
        mask.wf(),
        mask.width <= 1_000_000,
        mask.height <= 1_000_000,
    ensures
        regions_match(
            regions@,
            greedy_rects(*mask, threshold),
            orig_w,
            orig_h,
            mask.width as int,
            mask.height as int,
        ),
        rects_valid(greedy_rects(*mask, threshold), *mask, threshold),
        rects_complete(greedy_rects(*mask, threshold), *mask, threshold),
        forall|j: int|
            0 <= j < regions@.len() ==> corners_ordered((#[trigger] regions@[j]).points@)
                && corners_within(regions@[j].points@, orig_w, orig_h),
        (forall|x: int, y: int|
            0 <= x < mask.width && 0 <= y < mask.height ==> !(#[trigger] mask.active(
                threshold,
                x,
                y,
            ))) ==> regions@.len() == 0,
{
    let rects = find_rects(mask, threshold);
    let w = mask.width;
    let h = mask.height;
    let mut regions: Vec<CandidateRegion> = Vec::new();
    let n = rects.len();
    for k in 0..n
        invariant
            n == rects@.len(),
            rects@ == greedy_rects(*mask, threshold),
            rects_valid(rects@, *mask, threshold),
            w == mask.width,
            h == mask.height,
            mask.width <= 1_000_000,
            mask.height <= 1_000_000,
            regions@.len() == k,
            forall|j: int|
                0 <= j < k ==> (#[trigger] regions@[j]).points@ == region_points(
                    rects@[j],
                    orig_w,
                    orig_h,
                    w as int,
                    h as int,
                ),
            forall|j: int|
                0 <= j < k ==> corners_ordered((#[trigger] regions@[j]).points@)
                    && corners_within(regions@[j].points@, orig_w, orig_h),
    {
        proof {
            assert(rects@[k as int].wf(mask.width as int, mask.height as int));
            lemma_region_points_shape(rects@[k as int], orig_w, orig_h, w as int, h as int);
        }
        let cr = scale_region(&rects[k], orig_w, orig_h, w, h);
        regions.push(cr);
    }
    proof {
        let rs = rects@;
        assert(regions_match(regions@, rs, orig_w, orig_h, w as int, h as int));
        if forall|x: int, y: int|
            0 <= x < mask.width && 0 <= y < mask.height ==> !(#[trigger] mask.active(
                threshold,
                x,
                y,
            )) {
            lemma_quiet_mask_empty(rs, *mask, threshold);
        }
    }
    regions
}

} // verus!
