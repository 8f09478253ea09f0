use paddle_ocr::decoder::decode;
use paddle_ocr::decoder::ProbMatrix;
use paddle_ocr::Error;

fn vocab_ab() -> Vec<String> {
    vec!["A".to_string(), "B".to_string()]
}

fn matrix(classes: usize, rows: Vec<Vec<u32>>) -> ProbMatrix {
    ProbMatrix::new(classes, rows).expect("well-formed matrix")
}

#[test]
fn all_blank_decodes_to_empty_with_zero_confidence() {
    let m = matrix(
        3,
        vec![
            vec![1000, 0, 0],
            vec![900, 100, 0],
            vec![800, 100, 100],
            vec![1000, 0, 0],
        ],
    );
    let (text, confidence) = decode(&vocab_ab(), &m);
    assert_eq!(text, "");
    assert_eq!(confidence, 0);
}

#[test]
fn empty_matrix_decodes_to_empty() {
    let m = matrix(2, vec![]);
    let (text, confidence) = decode(&vocab_ab(), &m);
    assert_eq!(text, "");
    assert_eq!(confidence, 0);
}

#[test]
fn repeated_index_collapses_to_single_symbol() {
    let m = matrix(
        3,
        vec![vec![0, 1000, 0], vec![0, 1000, 0], vec![0, 1000, 0]],
    );
    let (text, confidence) = decode(&vocab_ab(), &m);
    assert_eq!(text, "A");
    assert_eq!(confidence, 1000);
}

#[test]
fn alternating_indices_emit_one_symbol_per_run() {
    let m = matrix(
        3,
        vec![vec![0, 1000, 0], vec![0, 0, 1000], vec![0, 1000, 0]],
    );
    let (text, confidence) = decode(&vocab_ab(), &m);
    assert_eq!(text, "ABA");
    assert_eq!(confidence, 1000);
}

#[test]
fn blank_separates_repeats_and_confidence_is_mean() {
    // Argmax sequence [0, 1, 1, 2, 0, 2]: the repeat of index 1 collapses,
    // the blank at position 4 lets index 2 emit again.
    let m = matrix(
        3,
        vec![
            vec![900, 50, 50],
            vec![50, 900, 50],
            vec![100, 800, 100],
            vec![50, 100, 850],
            vec![700, 100, 200],
            vec![0, 100, 900],
        ],
    );
    let (text, confidence) = decode(&vocab_ab(), &m);
    assert_eq!(text, "ABB");
    // Mean of the emitted scores 900, 850, 900, rounded down.
    assert_eq!(confidence, 883);
}

#[test]
fn ties_pick_the_first_index() {
    let blankish = matrix(3, vec![vec![500, 500, 300]]);
    let (text, confidence) = decode(&vocab_ab(), &blankish);
    assert_eq!(text, "");
    assert_eq!(confidence, 0);

    let lettered = matrix(3, vec![vec![100, 500, 500]]);
    let (text, confidence) = decode(&vocab_ab(), &lettered);
    assert_eq!(text, "A");
    assert_eq!(confidence, 500);
}

#[test]
fn out_of_vocabulary_index_is_skipped_but_still_blocks_repeats() {
    let vocab = vec!["A".to_string()];
    let m = matrix(4, vec![vec![0, 0, 0, 900], vec![0, 900, 0, 0]]);
    let (text, confidence) = decode(&vocab, &m);
    assert_eq!(text, "A");
    assert_eq!(confidence, 900);
}

#[test]
fn multi_character_vocabulary_entries_are_emitted_whole() {
    let vocab = vec!["ab".to_string(), "cd".to_string()];
    let m = matrix(3, vec![vec![0, 900, 100], vec![0, 100, 900]]);
    let (text, _) = decode(&vocab, &m);
    assert_eq!(text, "abcd");
}

#[test]
fn matrix_with_zero_classes_is_rejected() {
    assert!(matches!(ProbMatrix::new(0, vec![]), Err(Error::DecodeFailure)));
}

#[test]
fn matrix_with_ragged_row_is_rejected() {
    let rows = vec![vec![0, 1000], vec![0, 0, 1000]];
    assert!(matches!(ProbMatrix::new(2, rows), Err(Error::DecodeFailure)));
}

#[test]
fn matrix_with_overrange_score_is_rejected() {
    let rows = vec![vec![0, 1001]];
    assert!(matches!(ProbMatrix::new(2, rows), Err(Error::DecodeFailure)));
}
