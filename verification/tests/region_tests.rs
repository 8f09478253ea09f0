use paddle_ocr::region::extract;
use paddle_ocr::region::find_rects;
use paddle_ocr::region::MaskRect;
use paddle_ocr::region::ProbMask;
use paddle_ocr::Error;

fn mask_with_block(
    width: usize,
    height: usize,
    x0: usize,
    y0: usize,
    x1: usize,
    y1: usize,
    score: u32,
) -> ProbMask {
    let mut cells = vec![0u32; width * height];
    for y in y0..y1 {
        for x in x0..x1 {
            cells[y * width + x] = score;
        }
    }
    ProbMask::new(width, height, cells).expect("well-formed mask")
}

#[test]
fn single_block_maps_to_original_coordinates() {
    // A 10x10 active block at mask position (20, 20); the 80x80 original
    // was resized to a 40x40 mask (scale 0.5), so corners double back.
    let mask = mask_with_block(40, 40, 20, 20, 30, 30, 400);
    let regions = extract(&mask, 300, 80, 80);
    assert_eq!(regions.len(), 1);
    assert_eq!(
        regions[0].points,
        vec![(40, 40), (60, 40), (60, 60), (40, 60)]
    );
}

#[test]
fn each_axis_scales_by_its_own_dimensions() {
    // A 60x60 original resized to a 30x15 mask: x doubles, y quadruples.
    let mask = mask_with_block(30, 15, 10, 4, 20, 10, 800);
    let regions = extract(&mask, 300, 60, 60);
    assert_eq!(regions.len(), 1);
    assert_eq!(
        regions[0].points,
        vec![(20, 16), (40, 16), (40, 40), (20, 40)]
    );
}

#[test]
fn corners_stay_within_the_original_when_the_mask_is_larger() {
    // A 12x12 block in a 30x30 mask of a 7x7 original: exact unscaling
    // keeps every corner at most 7, and spans shrink without crossing.
    let mask = mask_with_block(30, 30, 6, 6, 18, 18, 900);
    let regions = extract(&mask, 300, 7, 7);
    assert_eq!(regions.len(), 1);
    assert_eq!(regions[0].points, vec![(1, 1), (4, 1), (4, 4), (1, 4)]);
}

#[test]
fn quiet_mask_yields_no_regions() {
    let mask = mask_with_block(30, 30, 5, 5, 25, 25, 200);
    let regions = extract(&mask, 300, 60, 60);
    assert_eq!(regions.len(), 0);
}

#[test]
fn threshold_is_strict() {
    // Scores exactly at the threshold are inactive.
    let mask = mask_with_block(20, 20, 2, 2, 12, 12, 300);
    let regions = extract(&mask, 300, 20, 20);
    assert_eq!(regions.len(), 0);
}

#[test]
fn minimum_area_is_strict() {
    // A 3x3 blob has area 9, which does not strictly exceed the minimum.
    let mask = mask_with_block(20, 20, 5, 5, 8, 8, 900);
    let regions = extract(&mask, 300, 20, 20);
    assert_eq!(regions.len(), 0);
}

#[test]
fn rectangle_spans_the_walked_row_and_column() {
    // A 4x3 blob seeded at (1, 1) walks 4 cells right and 3 cells down.
    let mask = mask_with_block(20, 20, 1, 1, 5, 4, 800);
    let rects = find_rects(&mask, 300);
    assert_eq!(rects.len(), 1);
    assert_eq!(rects[0], MaskRect { x0: 1, y0: 1, x1: 5, y1: 4 });
}

#[test]
fn separate_blobs_yield_separate_disjoint_regions() {
    let mut cells = vec![0u32; 30 * 30];
    for y in 2..6 {
        for x in 2..6 {
            cells[y * 30 + x] = 700;
        }
    }
    for y in 10..16 {
        for x in 10..16 {
            cells[y * 30 + x] = 700;
        }
    }
    let mask = ProbMask::new(30, 30, cells).expect("well-formed mask");
    let rects = find_rects(&mask, 300);
    assert_eq!(rects.len(), 2);
    assert_eq!(rects[0], MaskRect { x0: 2, y0: 2, x1: 6, y1: 6 });
    assert_eq!(rects[1], MaskRect { x0: 10, y0: 10, x1: 16, y1: 16 });
}

#[test]
fn accepted_cells_are_not_reused_as_seeds() {
    // One 5x5 blob: after the first rectangle is accepted and cleared, no
    // cell inside it seeds a second overlapping rectangle.
    let mask = mask_with_block(20, 20, 3, 3, 8, 8, 600);
    let rects = find_rects(&mask, 300);
    assert_eq!(rects.len(), 1);
}

#[test]
fn mask_with_wrong_cell_count_is_rejected() {
    assert!(matches!(
        ProbMask::new(4, 4, vec![0u32; 15]),
        Err(Error::DecodeFailure)
    ));
}

#[test]
fn mask_with_overrange_score_is_rejected() {
    assert!(matches!(
        ProbMask::new(2, 1, vec![0, 1500]),
        Err(Error::DecodeFailure)
    ));
}
