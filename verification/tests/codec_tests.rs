use paddle_ocr::codec::detection_dims;
use paddle_ocr::codec::recognition_width;
use paddle_ocr::codec::scale_permille;
use paddle_ocr::Error;

#[test]
fn detection_dims_scale_the_longer_side_and_round_to_multiples() {
    // 1920x1080: the longer side maps to 960 exactly, the shorter to 540,
    // which rounds to the multiple-of-32 target 544.
    assert_eq!(detection_dims(1920, 1080), Ok((960, 544)));
}

#[test]
fn detection_dims_of_square_input() {
    assert_eq!(detection_dims(640, 640), Ok((960, 960)));
}

#[test]
fn detection_dims_reject_empty_regions() {
    assert!(matches!(detection_dims(0, 10), Err(Error::InvalidGeometry)));
    assert!(matches!(detection_dims(10, 0), Err(Error::InvalidGeometry)));
}

#[test]
fn recognition_width_preserves_aspect_ratio() {
    // Height 50 maps to the fixed 48, so width 100 maps to 96.
    assert_eq!(recognition_width(100, 50), Ok(96));
}

#[test]
fn recognition_width_is_floored_to_one_pixel() {
    assert_eq!(recognition_width(1, 1000), Ok(1));
}

#[test]
fn recognition_width_rejects_empty_regions() {
    assert!(matches!(recognition_width(0, 5), Err(Error::InvalidGeometry)));
    assert!(matches!(recognition_width(5, 0), Err(Error::InvalidGeometry)));
}

#[test]
fn scale_ratio_is_rounded_to_thousandths() {
    assert_eq!(scale_permille(480, 960), 500);
    assert_eq!(scale_permille(960, 960), 1000);
    assert_eq!(scale_permille(1, 3), 333);
}

#[test]
fn error_descriptions_are_not_empty() {
    assert!(!Error::InvalidGeometry.describe().is_empty());
    assert!(!Error::EngineFailure.describe().is_empty());
    assert!(!Error::DecodeFailure.describe().is_empty());
}
