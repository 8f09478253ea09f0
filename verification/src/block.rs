//! Text blocks and the orchestration post-processing around them: turning
//! raw detector boxes into blocks sorted by reading order, merging
//! per-block recognition outcomes while preserving geometry, and deriving
//! axis-aligned bounding rectangles from polygons.

use vstd::prelude::*;

use crate::Error;
use crate::PROB_SCALE;
use crate::round_px;

verus! {

/// Fixed-point coordinate magnitude bound: two billion pixels, in
/// thousandths, so every rounded coordinate fits in `u32`.
pub const COORD_LIMIT: i64 = 2_000_000_000_000;

/// One detected or recognized text region in original-image pixel
/// coordinates. Geometry is caller-owned value data; the recognition paths
/// return fresh blocks and never mutate their inputs.
pub struct TextBlock {
    pub x: u32,
    pub y: u32,
    pub width: u32,
    pub height: u32,
    /// Fixed-point score in `[0, PROB_SCALE]`.
    pub confidence: u32,
    pub text: Option<String>,
    pub translation: Option<String>,
}

impl TextBlock {
    pub open spec fn wf(self) -> bool {
        &&& self.width >= 1
        &&& self.height >= 1
        &&& self.confidence <= PROB_SCALE
    }

    /// The vertical center `y + height / 2`, the reading-order sort key.
    pub open spec fn vcenter(self) -> int {
        self.y + self.height / 2
    }

    /// Whether two blocks occupy exactly the same rectangle.
    pub open spec fn same_geometry(self, other: TextBlock) -> bool {
        &&& self.x == other.x
        &&& self.y == other.y
        &&& self.width == other.width
        &&& self.height == other.height
    }
}

/// An axis-aligned detector box with fixed-point coordinates and score.
pub struct RawBox {
    pub xmin: i64,
    pub ymin: i64,
    pub xmax: i64,
    pub ymax: i64,
    pub confidence: u32,
}

impl RawBox {
    pub open spec fn wf(self) -> bool {
        &&& -COORD_LIMIT <= self.xmin <= COORD_LIMIT
        &&& -COORD_LIMIT <= self.ymin <= COORD_LIMIT
        &&& -COORD_LIMIT <= self.xmax <= COORD_LIMIT
        &&& -COORD_LIMIT <= self.ymax <= COORD_LIMIT
        &&& self.confidence <= PROB_SCALE
    }
}

/// Floors a span to at least one pixel, the degenerate-rectangle rule.
pub open spec fn at_least_one(k: int) -> int {
    if k < 1 {
        1
    } else {
        k
    }
}

/// The block a raw detector box becomes: corners rounded to whole pixels
/// and clamped non-negative, spans floored to one pixel, no text yet.
pub open spec fn block_of_box(b: RawBox) -> TextBlock {
    TextBlock {
        x: round_px(b.xmin as int) as u32,
        y: round_px(b.ymin as int) as u32,
        width: at_least_one(round_px(b.xmax - b.xmin)) as u32,
        height: at_least_one(round_px(b.ymax - b.ymin)) as u32,
        confidence: b.confidence,
        text: None,
        translation: None,
    }
}

/// Rounds a fixed-point coordinate to whole pixels on machine integers.
fn px_round(k: i64) -> (r: u32)
    requires
        -2 * COORD_LIMIT <= k <= 2 * COORD_LIMIT,
    ensures
        r == round_px(k as int),
{
    if k <= 0 {
        0
    } else {
        proof {
            assert(PROB_SCALE == 1000);
            assert(k as u64 <= u64::MAX / 4);
        }
        let v = crate::round_div_u64(k as u64, PROB_SCALE as u64);
        proof {
            crate::lemma_round_div_le(k as int, PROB_SCALE as int, 4_000_000_000int);
            crate::lemma_round_div_nonneg(k as int, PROB_SCALE as int);
        }
        v as u32
    }
}

pub fn block_from_box(b: &RawBox) -> (r: TextBlock)
    requires
        b.wf(),
    ensures
        r == block_of_box(*b),
        r.wf(),
{
    let x = px_round(b.xmin);
    let y = px_round(b.ymin);
    let w = px_round(b.xmax - b.xmin);
    let h = px_round(b.ymax - b.ymin);
    TextBlock {
        x,
        y,
        width: if w < 1 {
            1
        } else {
            w
        },
        height: if h < 1 {
            1
        } else {
            h
        },
        confidence: b.confidence,
        text: None,
        translation: None,
    }
}

/// Blocks ordered by non-decreasing vertical center.
pub open spec fn sorted_by_center(s: Seq<TextBlock>) -> bool {
    forall|i: int, j: int| 0 <= i < j < s.len() ==> s[i].vcenter() <= s[j].vcenter()
}

/// The blocks of one given vertical center, in their order of appearance.
pub open spec fn with_center(s: Seq<TextBlock>, c: int) -> Seq<TextBlock> {
    s.filter(|b: TextBlock| b.vcenter() == c)
}

proof fn lemma_with_center_none(s: Seq<TextBlock>, c: int)
    requires
        forall|q: int| 0 <= q < s.len() ==> (#[trigger] s[q]).vcenter() != c,
    ensures
        with_center(s, c) == Seq::<TextBlock>::empty(),
    decreases s.len(),
{
    reveal_with_fuel(Seq::filter, 2);
    if s.len() > 0 {
        assert(forall|q: int|
            0 <= q < s.drop_last().len() ==> (#[trigger] s.drop_last()[q]).vcenter() != c);
        lemma_with_center_none(s.drop_last(), c);
        assert(s.last().vcenter() != c);
    }
}

proof fn lemma_with_center_single(x: TextBlock, c: int)
    ensures
        x.vcenter() == c ==> with_center(seq![x], c) == seq![x],
        x.vcenter() != c ==> with_center(seq![x], c) == Seq::<TextBlock>::empty(),
{
    reveal_with_fuel(Seq::filter, 3);
    assert(seq![x].drop_last() =~= Seq::<TextBlock>::empty());
    assert(seq![x].last() == x);
    if x.vcenter() == c {
        assert(with_center(seq![x], c) =~= seq![x]);
    }
}

proof fn lemma_stable_insert(s: Seq<TextBlock>, p: int, i: int)
    requires
        0 <= p < i < s.len(),
        forall|q: int| p <= q < i ==> (#[trigger] s[q]).vcenter() > s[i].vcenter(),
    ensures
        forall|c: int| #[trigger] with_center(s.remove(i).insert(p, s[i]), c) == with_center(s, c),
{
    broadcast use vstd::prelude::Seq::filter_distributes_over_add;

    let x = s[i];
    let a = s.subrange(0, p);
    let b = s.subrange(p, i);
    let e = s.subrange(i + 1, s.len() as int);
    assert(s =~= a + b + seq![x] + e);
    assert(s.remove(i).insert(p, x) =~= a + seq![x] + b + e);
    assert forall|c: int| #[trigger] with_center(s.remove(i).insert(p, s[i]), c) == with_center(
        s,
        c,
    ) by {
        assert(with_center(a + b + seq![x] + e, c) == with_center(a, c) + with_center(b, c)
            + with_center(seq![x], c) + with_center(e, c));
        assert(with_center(a + seq![x] + b + e, c) == with_center(a, c) + with_center(seq![x], c)
            + with_center(b, c) + with_center(e, c));
        lemma_with_center_single(x, c);
        if x.vcenter() == c {
            assert(forall|q: int| 0 <= q < b.len() ==> (#[trigger] b[q]).vcenter() != c);
            lemma_with_center_none(b, c);
            assert(with_center(a, c) + with_center(b, c) + with_center(seq![x], c) + with_center(
                e,
                c,
            ) =~= with_center(a, c) + with_center(seq![x], c) + with_center(b, c) + with_center(
                e,
                c,
            ));
        } else {
            assert(with_center(a, c) + with_center(b, c) + with_center(seq![x], c) + with_center(
                e,
                c,
            ) =~= with_center(a, c) + with_center(seq![x], c) + with_center(b, c) + with_center(
                e,
                c,
            ));
        }
    }
}

fn center_key(b: &TextBlock) -> (k: u64)
    ensures
        k == b.vcenter(),
{
    b.y as u64 + (b.height / 2) as u64
}

/// Sorts blocks by vertical center `y + height / 2`, non-decreasing; the
/// result is a permutation of the input, and blocks of equal center keep
/// their relative input order (the insertion is stable).
pub fn sort_blocks(blocks: &mut Vec<TextBlock>)
    ensures
        sorted_by_center(final(blocks)@),
        final(blocks)@.to_multiset() == old(blocks)@.to_multiset(),
        forall|c: int| #[trigger] with_center(final(blocks)@, c) == with_center(old(blocks)@, c),
{
    broadcast use vstd::seq_lib::group_to_multiset_ensures;

    if blocks.len() <= 1 {
        return ;
    }
    let mut i: usize = 1;
    while i < blocks.len()
        invariant
            1 <= i <= blocks@.len(),
            blocks@.len() == old(blocks)@.len(),
            sorted_by_center(blocks@.take(i as int)),
            blocks@.to_multiset() == old(blocks)@.to_multiset(),
            forall|c: int| #[trigger] with_center(blocks@, c) == with_center(old(blocks)@, c),
        decreases blocks@.len() - i,
    {
        let ki = center_key(&blocks[i]);
        let mut p: usize = 0;
        while p < i && center_key(&blocks[p]) <= ki
            invariant
                p <= i < blocks@.len(),
                ki == blocks@[i as int].vcenter(),
                forall|q: int| 0 <= q < p ==> blocks@[q].vcenter() <= ki,
            decreases i - p,
        {
            p += 1;
        }
        if p < i {
            let ghost pre = blocks@;
            let b = blocks.remove(i);
            blocks.insert(p, b);
            proof {
                broadcast use vstd::multiset::group_multiset_axioms;

                let now = blocks@;
                let x = pre[i as int];
                assert(now == pre.remove(i as int).insert(p as int, x));
                assert(pre.contains(x));
                vstd::seq_lib::to_multiset_remove(pre, i as int);
                vstd::seq_lib::to_multiset_insert(pre.remove(i as int), p as int, x);
                vstd::seq_lib::to_multiset_contains(pre, x);
                assert(pre.to_multiset().count(x) > 0);
                assert(now.to_multiset() =~= pre.to_multiset());
                assert(forall|q: int| 0 <= q < p ==> now[q] == pre[q]);
                assert(now[p as int] == x);
                assert(forall|q: int| p < q <= i ==> now[q] == pre[q - 1]);
                let s = pre.take(i as int);
                assert(forall|q: int| 0 <= q < i ==> s[q] == pre[q]);
                assert forall|q: int| p <= q < i implies pre[q].vcenter() >= pre[p as int].vcenter() by {
                    if p < q {
                        assert(s[p as int].vcenter() <= s[q].vcenter());
                    }
                }
                assert(pre[p as int].vcenter() > ki);
                assert forall|q: int| p <= q < i implies (#[trigger] pre[q]).vcenter()
                    > pre[i as int].vcenter() by {
                    assert(pre[q].vcenter() >= pre[p as int].vcenter());
                }
                lemma_stable_insert(pre, p as int, i as int);
                assert forall|a: int, b2: int| 0 <= a < b2 < i + 1 implies now[a].vcenter()
                    <= now[b2].vcenter() by {
                    if b2 < p {
                    } else if b2 == p {
                        assert(now[a] == pre[a]);
                    } else {
                        assert(now[b2] == pre[b2 - 1]);
                        if a < p {
                            assert(pre[b2 - 1].vcenter() >= ki || b2 - 1 < p);
                        }
                    }
                }
                assert(sorted_by_center(now.take(i + 1)));
            }
        } else {
            proof {
                assert(forall|q: int| 0 <= q < i ==> blocks@[q].vcenter() <= ki);
                assert(sorted_by_center(blocks@.take(i + 1)));
            }
        }
        i += 1;
    }
    proof {
        assert(blocks@.take(blocks@.len() as int) =~= blocks@);
    }
}

/// Converts raw detector boxes to blocks (geometry and confidence only, no
/// text) and sorts them into reading order: the detect postcondition.
/// Blocks of equal vertical center stay in detector order, so the output
/// is the unique stable ordering of the converted boxes.
pub fn blocks_from_boxes(boxes: &Vec<RawBox>) -> (r: Vec<TextBlock>)
    requires
        forall|k: int| 0 <= k < boxes@.len() ==> (#[trigger] boxes@[k]).wf(),
    ensures
        r@.to_multiset() == boxes@.map_values(|b: RawBox| block_of_box(b)).to_multiset(),
        sorted_by_center(r@),
        forall|c: int|
            #[trigger] with_center(r@, c) == with_center(
                boxes@.map_values(|b: RawBox| block_of_box(b)),
                c,
            ),
        forall|k: int| 0 <= k < r@.len() ==> (#[trigger] r@[k]).wf(),
{
    broadcast use vstd::seq_lib::group_to_multiset_ensures;

    let ghost mapped = boxes@.map_values(|b: RawBox| block_of_box(b));
    let mut out: Vec<TextBlock> = Vec::new();
    let n = boxes.len();
    proof {
        assert(out@ =~= boxes@.take(0).map_values(|b: RawBox| block_of_box(b)));
    }
    for k in 0..n
        invariant
            n == boxes@.len(),
            forall|j: int| 0 <= j < boxes@.len() ==> (#[trigger] boxes@[j]).wf(),
            out@ == boxes@.take(k as int).map_values(|b: RawBox| block_of_box(b)),
    {
        let blk = block_from_box(&boxes[k]);
        out.push(blk);
        proof {
            assert(boxes@.take(k + 1).map_values(|b: RawBox| block_of_box(b)) =~= boxes@.take(
                k as int,
            ).map_values(|b: RawBox| block_of_box(b)).push(block_of_box(boxes@[k as int])));
        }
    }
    proof {
        assert(boxes@.take(n as int) =~= boxes@);
    }
    sort_blocks(&mut out);
    proof {
        assert forall|k: int| 0 <= k < out@.len() implies (#[trigger] out@[k]).wf() by {
            assert(out@.contains(out@[k]));
            assert(out@.to_multiset().count(out@[k]) > 0);
            assert(mapped.to_multiset().count(out@[k]) > 0);
            assert(mapped.contains(out@[k]));
            let j = choose|j: int| 0 <= j < mapped.len() && mapped[j] == out@[k];
            assert(mapped[j] == block_of_box(boxes@[j]));
            assert(boxes@[j].wf());
        }
    }
    out
}

fn clone_opt_string(o: &Option<String>) -> (r: Option<String>)
    ensures
        r == *o,
{
    match o {
        Option::None => Option::None,
        Option::Some(s) => Option::Some(s.clone()),
    }
}

/// Fills recognized text into blocks. Geometry, confidence and translation
/// are preserved exactly; only `text` changes. The call fails atomically
/// with `EngineFailure` when any single recognition failed: no partial
/// results.
pub fn ocr_results(blocks: &Vec<TextBlock>, texts: &Vec<Option<String>>) -> (r: Result<
    Vec<TextBlock>,
    Error,
>)
    requires
        texts@.len() == blocks@.len(),
    ensures
        r is Ok <==> (forall|k: int| 0 <= k < texts@.len() ==> (#[trigger] texts@[k]) is Some),
        r is Err ==> r->Err_0 == Error::EngineFailure,
        r is Ok ==> r->Ok_0@.len() == blocks@.len(),
        r is Ok ==> forall|k: int|
            0 <= k < blocks@.len() ==> {
                &&& (#[trigger] r->Ok_0@[k]).same_geometry(blocks@[k])
                &&& r->Ok_0@[k].confidence == blocks@[k].confidence
                &&& r->Ok_0@[k].translation == blocks@[k].translation
                &&& r->Ok_0@[k].text == texts@[k]
            },
{
    let mut out: Vec<TextBlock> = Vec::new();
    let n = blocks.len();
    for k in 0..n
        invariant
            n == blocks@.len(),
            texts@.len() == blocks@.len(),
            out@.len() == k,
            forall|j: int| 0 <= j < k ==> (#[trigger] texts@[j]) is Some,
            forall|j: int|
                0 <= j < k ==> {
                    &&& (#[trigger] out@[j]).same_geometry(blocks@[j])
                    &&& out@[j].confidence == blocks@[j].confidence
                    &&& out@[j].translation == blocks@[j].translation
                    &&& out@[j].text == texts@[j]
                },
    {
        let b = &blocks[k];
        match &texts[k] {
            Option::None => {
                return Err(Error::EngineFailure);
            },
            Option::Some(s) => {
                out.push(
                    TextBlock {
                        x: b.x,
                        y: b.y,
                        width: b.width,
                        height: b.height,
                        confidence: b.confidence,
                        text: Option::Some(s.clone()),
                        translation: clone_opt_string(&b.translation),
                    },
                );
            },
        }
    }
    Ok(out)
}

/// Like `ocr_results`, but the secondary recognizer also reports its own
/// confidence, which replaces the detector's geometric confidence.
pub fn ocr_paddle_results(blocks: &Vec<TextBlock>, outcomes: &Vec<Option<(String, u32)>>) -> (r:
    Result<Vec<TextBlock>, Error>)
    requires
        outcomes@.len() == blocks@.len(),
    ensures
        r is Ok <==> (forall|k: int| 0 <= k < outcomes@.len() ==> (#[trigger] outcomes@[k]) is Some),
        r is Err ==> r->Err_0 == Error::EngineFailure,
        r is Ok ==> r->Ok_0@.len() == blocks@.len(),
        r is Ok ==> forall|k: int|
            0 <= k < blocks@.len() ==> {
                &&& (#[trigger] r->Ok_0@[k]).same_geometry(blocks@[k])
                &&& r->Ok_0@[k].confidence == outcomes@[k].unwrap().1
                &&& r->Ok_0@[k].translation == blocks@[k].translation
                &&& r->Ok_0@[k].text == Some(outcomes@[k].unwrap().0)
            },
{
    let mut out: Vec<TextBlock> = Vec::new();
    let n = blocks.len();
    for k in 0..n
        invariant
            n == blocks@.len(),
            outcomes@.len() == blocks@.len(),
            out@.len() == k,
            forall|j: int| 0 <= j < k ==> (#[trigger] outcomes@[j]) is Some,
            forall|j: int|
                0 <= j < k ==> {
                    &&& (#[trigger] out@[j]).same_geometry(blocks@[j])
                    &&& out@[j].confidence == outcomes@[j].unwrap().1
                    &&& out@[j].translation == blocks@[j].translation
                    &&& out@[j].text == Some(outcomes@[j].unwrap().0)
                },
    {
        let b = &blocks[k];
        match &outcomes[k] {
            Option::None => {
                return Err(Error::EngineFailure);
            },
            Option::Some(tc) => {
                out.push(
                    TextBlock {
                        x: b.x,
                        y: b.y,
                        width: b.width,
                        height: b.height,
                        confidence: tc.1,
                        text: Option::Some(tc.0.clone()),
                        translation: clone_opt_string(&b.translation),
                    },
                );
            },
        }
    }
    Ok(out)
}

/// The smallest x coordinate in a point list.
pub open spec fn min_x(ps: Seq<(u32, u32)>) -> int
    decreases ps.len(),
{
    if ps.len() <= 1 {
        ps[0].0 as int
    } else {
        let m = min_x(ps.drop_last());
        if (ps.last().0 as int) < m {
            ps.last().0 as int
        } else {
            m
        }
    }
}

/// The smallest y coordinate in a point list.
pub open spec fn min_y(ps: Seq<(u32, u32)>) -> int
    decreases ps.len(),
{
    if ps.len() <= 1 {
        ps[0].1 as int
    } else {
        let m = min_y(ps.drop_last());
        if (ps.last().1 as int) < m {
            ps.last().1 as int
        } else {
            m
        }
    }
}

/// The largest x coordinate in a point list.
pub open spec fn max_x(ps: Seq<(u32, u32)>) -> int
    decreases ps.len(),
{
    if ps.len() <= 1 {
        ps[0].0 as int
    } else {
        let m = max_x(ps.drop_last());
        if (ps.last().0 as int) > m {
            ps.last().0 as int
        } else {
            m
        }
    }
}

/// The largest y coordinate in a point list.
pub open spec fn max_y(ps: Seq<(u32, u32)>) -> int
    decreases ps.len(),
{
    if ps.len() <= 1 {
        ps[0].1 as int
    } else {
        let m = max_y(ps.drop_last());
        if (ps.last().1 as int) > m {
            ps.last().1 as int
        } else {
            m
        }
    }
}

pub proof fn lemma_rect_bounds(ps: Seq<(u32, u32)>)
    requires
        ps.len() >= 1,
    ensures
        forall|k: int|
            0 <= k < ps.len() ==> min_x(ps) <= (#[trigger] ps[k]).0 && ps[k].0 <= max_x(ps)
                && min_y(ps) <= ps[k].1 && ps[k].1 <= max_y(ps),
        0 <= min_x(ps),
        0 <= min_y(ps),
    decreases ps.len(),
{
    if ps.len() > 1 {
        lemma_rect_bounds(ps.drop_last());
        assert forall|k: int|
            0 <= k < ps.len() implies min_x(ps) <= (#[trigger] ps[k]).0 && ps[k].0 <= max_x(ps)
            && min_y(ps) <= ps[k].1 && ps[k].1 <= max_y(ps) by {
            if k < ps.len() - 1 {
                assert(ps.drop_last()[k] == ps[k]);
                assert(min_x(ps.drop_last()) <= ps.drop_last()[k].0);
            } else {
                assert(ps[k] == ps.last());
            }
        }
    }
}

/// The axis-aligned bounding rectangle of a polygon's point list:
/// `(min x, min y, max x, max y)`.
pub fn bounding_rect(points: &Vec<(u32, u32)>) -> (r: (u32, u32, u32, u32))
    requires
        points@.len() >= 1,
    ensures
        r.0 == min_x(points@),
        r.1 == min_y(points@),
        r.2 == max_x(points@),
        r.3 == max_y(points@),
{
    let first = points[0];
    let mut xmin = first.0;
    let mut ymin = first.1;
    let mut xmax = first.0;
    let mut ymax = first.1;
    let n = points.len();
    proof {
        assert(points@.take(1) =~= seq![points@[0]]);
    }
    for k in 1..n
        invariant
            n == points@.len(),
            1 <= k <= n,
            xmin == min_x(points@.take(k as int)),
            ymin == min_y(points@.take(k as int)),
            xmax == max_x(points@.take(k as int)),
            ymax == max_y(points@.take(k as int)),
    {
        proof {
            assert(points@.take(k + 1).drop_last() =~= points@.take(k as int));
            assert(points@.take(k + 1).last() == points@[k as int]);
        }
        let p = points[k];
        if p.0 < xmin {
            xmin = p.0;
        }
        if p.1 < ymin {
            ymin = p.1;
        }
        if p.0 > xmax {
            xmax = p.0;
        }
        if p.1 > ymax {
            ymax = p.1;
        }
    }
    proof {
        assert(points@.take(n as int) =~= points@);
    }
    (xmin, ymin, xmax, ymax)
}

/// One recognized region from the combined detect-and-recognize path:
/// the proposed polygon, its text, and the recognizer's confidence.
pub struct TextBox {
    pub points: Vec<(u32, u32)>,
    pub text: String,
    pub confidence: u32,
}

impl TextBox {
    pub open spec fn wf(self) -> bool {
        &&& self.points@.len() >= 1
        &&& self.confidence <= PROB_SCALE
    }
}

/// The block a recognized box becomes: its polygon's bounding rectangle,
/// spans floored to one pixel, with text and confidence carried over.
pub open spec fn block_of_text_box(tb: TextBox) -> TextBlock {
    TextBlock {
        x: min_x(tb.points@) as u32,
        y: min_y(tb.points@) as u32,
        width: at_least_one(max_x(tb.points@) - min_x(tb.points@)) as u32,
        height: at_least_one(max_y(tb.points@) - min_y(tb.points@)) as u32,
        confidence: tb.confidence,
        text: Option::Some(tb.text),
        translation: Option::None,
    }
}

pub fn block_from_text_box(tb: &TextBox) -> (r: TextBlock)
    requires
        tb.wf(),
    ensures
        r == block_of_text_box(*tb),
        r.wf(),
{
    proof {
        lemma_rect_bounds(tb.points@);
        assert(min_x(tb.points@) <= tb.points@[0].0 <= max_x(tb.points@));
        assert(min_y(tb.points@) <= tb.points@[0].1 <= max_y(tb.points@));
        assert(min_x(tb.points@) >= 0 && min_y(tb.points@) >= 0);
    }
    let (xmin, ymin, xmax, ymax) = bounding_rect(&tb.points);
    let w = xmax - xmin;
    let h = ymax - ymin;
    TextBlock {
        x: xmin,
        y: ymin,
        width: if w < 1 {
            1
        } else {
            w
        },
        height: if h < 1 {
            1
        } else {
            h
        },
        confidence: tb.confidence,
        text: Option::Some(tb.text.clone()),
        translation: Option::None,
    }
}

/// Converts every recognized box to a block, in order, with no sorting:
/// the combined path deliberately gives no ordering guarantee.
pub fn blocks_from_text_boxes(tbs: &Vec<TextBox>) -> (r: Vec<TextBlock>)
    requires
        forall|k: int| 0 <= k < tbs@.len() ==> (#[trigger] tbs@[k]).wf(),
    ensures
        r@.len() == tbs@.len(),
        forall|k: int| 0 <= k < tbs@.len() ==> (#[trigger] r@[k]) == block_of_text_box(tbs@[k]),
        forall|k: int| 0 <= k < r@.len() ==> (#[trigger] r@[k]).wf(),
{
    let mut out: Vec<TextBlock> = Vec::new();
    let n = tbs.len();
    for k in 0..n
        invariant
            n == tbs@.len(),
            forall|j: int| 0 <= j < tbs@.len() ==> (#[trigger] tbs@[j]).wf(),
            out@.len() == k,
            forall|j: int| 0 <= j < k ==> (#[trigger] out@[j]) == block_of_text_box(tbs@[j]),
            forall|j: int| 0 <= j < k ==> (#[trigger] out@[j]).wf(),
    {
        let blk = block_from_text_box(&tbs[k]);
        out.push(blk);
    }
    out
}

fn copy_points(v: &Vec<(u32, u32)>) -> (r: Vec<(u32, u32)>)
    ensures
        r@ == v@,
{
    let mut out: Vec<(u32, u32)> = Vec::new();
    let n = v.len();
    for k in 0..n
        invariant
            n == v@.len(),
            out@ == v@.take(k as int),
    {
        out.push(v[k]);
        proof {
            assert(v@.take(k + 1) =~= v@.take(k as int).push(v@[k as int]));
        }
    }
    proof {
        assert(v@.take(n as int) =~= v@);
    }
    out
}

/// What a recognized box looks like in specifications: the polygon's
/// points, the text value, and the confidence.
pub open spec fn text_box_view(tb: TextBox) -> (Seq<(u32, u32)>, String, u32) {
    (tb.points@, tb.text, tb.confidence)
}

/// The recognized boxes kept by the best-effort combined path: one box per
/// polygon whose recognition succeeded, in input order; failed regions are
/// skipped, not fatal.
pub open spec fn kept_boxes(polys: Seq<Vec<(u32, u32)>>, outs: Seq<Option<(String, u32)>>) -> Seq<
    (Seq<(u32, u32)>, String, u32),
>
    decreases polys.len(),
{
    if polys.len() == 0 {
        Seq::empty()
    } else {
        let rest = kept_boxes(polys.drop_last(), outs.drop_last());
        match outs[polys.len() - 1] {
            Option::Some(tc) => rest + seq![(polys.last()@, tc.0, tc.1)],
            Option::None => rest,
        }
    }
}

/// Pairs each proposed polygon with its recognition outcome, keeping the
/// successes and skipping the failures: the combined path's best-effort
/// policy, in contrast to the atomic `ocr_results`.
pub fn assemble_text_boxes(polys: &Vec<Vec<(u32, u32)>>, outcomes: &Vec<Option<(String, u32)>>) -> (r:
    Vec<TextBox>)
    requires
        outcomes@.len() == polys@.len(),
    ensures
        r@.map_values(|tb: TextBox| text_box_view(tb)) == kept_boxes(polys@, outcomes@),
{
    let mut out: Vec<TextBox> = Vec::new();
    let n = polys.len();
    proof {
        assert(out@.map_values(|tb: TextBox| text_box_view(tb)) =~= kept_boxes(
            polys@.take(0),
            outcomes@.take(0),
        ));
    }
    for k in 0..n
        invariant
            n == polys@.len(),
            outcomes@.len() == polys@.len(),
            out@.map_values(|tb: TextBox| text_box_view(tb)) == kept_boxes(
                polys@.take(k as int),
                outcomes@.take(k as int),
            ),
    {
        proof {
            assert(polys@.take(k + 1).drop_last() =~= polys@.take(k as int));
            assert(outcomes@.take(k + 1).drop_last() =~= outcomes@.take(k as int));
            assert(polys@.take(k + 1).last() == polys@[k as int]);
            assert(outcomes@.take(k + 1)[k as int] == outcomes@[k as int]);
        }
        match &outcomes[k] {
            Option::None => {},
            Option::Some(tc) => {
                let tb = TextBox {
                    points: copy_points(&polys[k]),
                    text: tc.0.clone(),
                    confidence: tc.1,
                };
                out.push(tb);
                proof {
                    assert(text_box_view(tb) == (polys@[k as int]@, tc.0, tc.1));
                    assert(out@.map_values(|b: TextBox| text_box_view(b)) =~= out@.drop_last()
                        .map_values(|b: TextBox| text_box_view(b)).push(text_box_view(tb)));
                    assert(kept_boxes(polys@.take(k + 1), outcomes@.take(k + 1)) =~= kept_boxes(
                        polys@.take(k as int),
                        outcomes@.take(k as int),
                    ).push((polys@[k as int]@, tc.0, tc.1)));
                }
            },
        }
    }
    proof {
        assert(polys@.take(n as int) =~= polys@);
        assert(outcomes@.take(n as int) =~= outcomes@);
    }
    out
}

} // verus!
