use paddle_ocr::refine::refine;
use paddle_ocr::refine::GreyMask;

fn single_dot_mask() -> GreyMask {
    let mut data = vec![0u8; 25];
    data[2 * 5 + 2] = 128;
    GreyMask { width: 5, height: 5, data }
}

#[test]
fn dilation_spreads_and_zero_erosion_binarizes() {
    // A single grey dot dilated by a radius-1 square becomes a 3x3 block;
    // erosion at distance 0 clears the background and saturates the rest.
    let refined = refine(&single_dot_mask(), 1, 0);
    assert_eq!(refined.width, 5);
    assert_eq!(refined.height, 5);
    let mut expected = vec![0u8; 25];
    for y in 1..4 {
        for x in 1..4 {
            expected[y * 5 + x] = 255;
        }
    }
    assert_eq!(refined.data, expected);
}

#[test]
fn erosion_shrinks_the_dilated_block() {
    // Dilating the dot to a 3x3 block and eroding at distance 1 leaves
    // only the block's center.
    let refined = refine(&single_dot_mask(), 1, 1);
    let mut expected = vec![0u8; 25];
    expected[2 * 5 + 2] = 255;
    assert_eq!(refined.data, expected);
}

#[test]
fn refine_preserves_dimensions() {
    let mask = GreyMask { width: 7, height: 3, data: vec![9u8; 21] };
    let refined = refine(&mask, 2, 1);
    assert_eq!(refined.width, 7);
    assert_eq!(refined.height, 3);
    assert_eq!(refined.data.len(), 21);
}
