use paddle_ocr::block::assemble_text_boxes;
use paddle_ocr::block::block_from_box;
use paddle_ocr::block::block_from_text_box;
use paddle_ocr::block::blocks_from_boxes;
use paddle_ocr::block::blocks_from_text_boxes;
use paddle_ocr::block::bounding_rect;
use paddle_ocr::block::ocr_paddle_results;
use paddle_ocr::block::ocr_results;
use paddle_ocr::block::sort_blocks;
use paddle_ocr::block::RawBox;
use paddle_ocr::block::TextBlock;
use paddle_ocr::block::TextBox;
use paddle_ocr::Error;

fn plain_block(x: u32, y: u32, width: u32, height: u32) -> TextBlock {
    TextBlock {
        x,
        y,
        width,
        height,
        confidence: 500,
        text: None,
        translation: None,
    }
}

#[test]
fn raw_box_coordinates_round_to_nearest_and_clamp() {
    let b = RawBox {
        xmin: 10500,
        ymin: -500,
        xmax: 20400,
        ymax: 1000,
        confidence: 700,
    };
    let blk = block_from_box(&b);
    // 10.5 rounds up to 11; -0.5 clamps to 0; the spans round to nearest.
    assert_eq!(blk.x, 11);
    assert_eq!(blk.y, 0);
    assert_eq!(blk.width, 10);
    assert_eq!(blk.height, 2);
    assert_eq!(blk.confidence, 700);
    assert!(blk.text.is_none());
    assert!(blk.translation.is_none());
}

#[test]
fn degenerate_raw_box_gets_unit_spans() {
    let b = RawBox {
        xmin: 5000,
        ymin: 5000,
        xmax: 5000,
        ymax: 5100,
        confidence: 100,
    };
    let blk = block_from_box(&b);
    assert_eq!(blk.width, 1);
    assert_eq!(blk.height, 1);
}

#[test]
fn detected_blocks_are_sorted_by_vertical_center() {
    let boxes = vec![
        RawBox { xmin: 0, ymin: 50000, xmax: 10000, ymax: 60000, confidence: 900 },
        RawBox { xmin: 0, ymin: 1000, xmax: 10000, ymax: 3000, confidence: 800 },
        RawBox { xmin: 0, ymin: 20000, xmax: 10000, ymax: 26000, confidence: 700 },
    ];
    let blocks = blocks_from_boxes(&boxes);
    assert_eq!(blocks.len(), 3);
    let centers: Vec<u32> = blocks.iter().map(|b| b.y + b.height / 2).collect();
    assert_eq!(centers, vec![2, 23, 55]);
    assert_eq!(blocks[0].confidence, 800);
    assert_eq!(blocks[1].confidence, 700);
    assert_eq!(blocks[2].confidence, 900);
}

#[test]
fn sort_keeps_input_order_of_equal_centers() {
    let mut blocks = vec![
        TextBlock { text: Some("late".to_string()), ..plain_block(0, 30, 4, 4) },
        TextBlock { text: Some("first".to_string()), ..plain_block(0, 10, 4, 4) },
        TextBlock { text: Some("second".to_string()), ..plain_block(9, 10, 4, 4) },
    ];
    sort_blocks(&mut blocks);
    assert_eq!(blocks[0].text.as_deref(), Some("first"));
    assert_eq!(blocks[1].text.as_deref(), Some("second"));
    assert_eq!(blocks[2].text.as_deref(), Some("late"));
}

#[test]
fn ocr_results_fill_text_and_preserve_geometry() {
    let blocks = vec![plain_block(1, 2, 3, 4), plain_block(5, 6, 7, 8)];
    let texts = vec![Some("hello".to_string()), Some("there".to_string())];
    let out = ocr_results(&blocks, &texts).expect("all recognitions succeeded");
    assert_eq!(out.len(), 2);
    for (i, b) in out.iter().enumerate() {
        assert_eq!(b.x, blocks[i].x);
        assert_eq!(b.y, blocks[i].y);
        assert_eq!(b.width, blocks[i].width);
        assert_eq!(b.height, blocks[i].height);
        assert_eq!(b.confidence, blocks[i].confidence);
    }
    assert_eq!(out[0].text.as_deref(), Some("hello"));
    assert_eq!(out[1].text.as_deref(), Some("there"));
}

#[test]
fn ocr_results_fail_atomically_on_any_failure() {
    let blocks = vec![plain_block(1, 2, 3, 4), plain_block(5, 6, 7, 8)];
    let texts = vec![Some("hello".to_string()), None];
    assert!(matches!(
        ocr_results(&blocks, &texts),
        Err(Error::EngineFailure)
    ));
}

#[test]
fn paddle_results_replace_confidence() {
    let blocks = vec![plain_block(1, 2, 3, 4)];
    let outcomes = vec![Some(("text".to_string(), 950u32))];
    let out = ocr_paddle_results(&blocks, &outcomes).expect("recognition succeeded");
    assert_eq!(out[0].confidence, 950);
    assert_eq!(out[0].text.as_deref(), Some("text"));
    assert_eq!(out[0].x, 1);
    assert_eq!(out[0].height, 4);
}

#[test]
fn paddle_results_fail_atomically_on_any_failure() {
    let blocks = vec![plain_block(1, 2, 3, 4), plain_block(5, 6, 7, 8)];
    let outcomes = vec![None, Some(("text".to_string(), 950u32))];
    assert!(matches!(
        ocr_paddle_results(&blocks, &outcomes),
        Err(Error::EngineFailure)
    ));
}

#[test]
fn bounding_rect_is_the_componentwise_extremes() {
    let points = vec![(5u32, 7u32), (2, 9), (8, 3)];
    assert_eq!(bounding_rect(&points), (2, 3, 8, 9));
}

#[test]
fn recognized_box_becomes_its_bounding_rectangle() {
    let tb = TextBox {
        points: vec![(10, 20), (30, 20), (30, 26), (10, 26)],
        text: "words".to_string(),
        confidence: 640,
    };
    let blk = block_from_text_box(&tb);
    assert_eq!(blk.x, 10);
    assert_eq!(blk.y, 20);
    assert_eq!(blk.width, 20);
    assert_eq!(blk.height, 6);
    assert_eq!(blk.confidence, 640);
    assert_eq!(blk.text.as_deref(), Some("words"));
    assert!(blk.translation.is_none());
}

#[test]
fn single_point_box_gets_unit_spans() {
    let tb = TextBox {
        points: vec![(4, 4)],
        text: "dot".to_string(),
        confidence: 10,
    };
    let blk = block_from_text_box(&tb);
    assert_eq!((blk.x, blk.y, blk.width, blk.height), (4, 4, 1, 1));
}

#[test]
fn combined_path_converts_every_box_in_order() {
    let tbs = vec![
        TextBox { points: vec![(0, 0), (4, 0), (4, 2), (0, 2)], text: "a".to_string(), confidence: 1 },
        TextBox { points: vec![(9, 9)], text: "b".to_string(), confidence: 2 },
    ];
    let blocks = blocks_from_text_boxes(&tbs);
    assert_eq!(blocks.len(), 2);
    assert_eq!(blocks[0].text.as_deref(), Some("a"));
    assert_eq!(blocks[1].text.as_deref(), Some("b"));
    assert_eq!(blocks[1].x, 9);
}

#[test]
fn best_effort_assembly_skips_failed_regions() {
    let polys = vec![
        vec![(0u32, 0u32), (2, 0)],
        vec![(5, 5), (6, 6)],
        vec![(8, 8), (9, 9)],
    ];
    let outcomes = vec![
        Some(("kept".to_string(), 100u32)),
        None,
        Some(("also".to_string(), 200u32)),
    ];
    let boxes = assemble_text_boxes(&polys, &outcomes);
    assert_eq!(boxes.len(), 2);
    assert_eq!(boxes[0].text, "kept");
    assert_eq!(boxes[0].points, polys[0]);
    assert_eq!(boxes[1].text, "also");
    assert_eq!(boxes[1].points, polys[2]);
    assert_eq!(boxes[1].confidence, 200);
}
