use bin_ocr::binarisation::{binarize_pgm_text, PgmError, DARK_THRESHOLD};
use bin_ocr::pgm_text::{binary_pgm_text, gray_pgm_text, MatrixError};

#[test]
fn binarises_dark_pixels_to_zero_and_light_ones_to_one() {
    let text = "P2\n2 2\n255\n0 255\n230 10\n";
    assert_eq!(binarize_pgm_text(text, 2, 2), Ok(vec![vec![0, 1], vec![1, 0]]));
}

#[test]
fn the_threshold_is_220() {
    assert_eq!(DARK_THRESHOLD, 220);
    let text = "P2\n2 1\n255\n219 220\n";
    assert_eq!(binarize_pgm_text(text, 2, 1), Ok(vec![vec![0, 1]]));
}

#[test]
fn comment_and_blank_lines_of_the_header_are_skipped() {
    let text = "P2\n# made by hand\n\n  \n2 1\n255\n0 0\n";
    assert_eq!(binarize_pgm_text(text, 2, 1), Ok(vec![vec![0, 0]]));
}

#[test]
fn words_that_are_not_values_are_skipped() {
    let text = "P2\n2 1\n255\nx 0 -5 250\n";
    assert_eq!(binarize_pgm_text(text, 2, 1), Ok(vec![vec![0, 1]]));
}

#[test]
fn extra_values_are_ignored() {
    let text = "P2\n1 1\n255\n250 0 0\n";
    assert_eq!(binarize_pgm_text(text, 1, 1), Ok(vec![vec![1]]));
}

#[test]
fn an_incomplete_header_is_an_error() {
    assert_eq!(binarize_pgm_text("P2\n2 2\n", 2, 2), Err(PgmError::HeaderIncomplete));
    assert_eq!(binarize_pgm_text("", 1, 1), Err(PgmError::HeaderIncomplete));
}

#[test]
fn missing_pixels_are_an_error() {
    assert_eq!(
        binarize_pgm_text("P2\n2 2\n255\n1 2 3\n", 2, 2),
        Err(PgmError::NotEnoughPixels { expected: 4, found: 3 })
    );
}

#[test]
fn an_empty_image_needs_no_pixel() {
    assert_eq!(binarize_pgm_text("P2\n0 0\n255\n", 0, 0), Ok(vec![]));
}

#[test]
fn writes_a_grey_image() {
    assert_eq!(gray_pgm_text(2, 1, &vec![0, 255]), "P2\n2 1\n255\n0 255 \n");
    assert_eq!(
        gray_pgm_text(3, 2, &vec![1, 2, 3, 4, 5, 6]),
        "P2\n3 2\n255\n1 2 3 \n4 5 6 \n"
    );
}

#[test]
fn a_written_grey_image_binarises_by_threshold() {
    let levels: Vec<u8> = vec![0, 219, 220, 255, 100, 230];
    let text = gray_pgm_text(3, 2, &levels);
    assert_eq!(
        binarize_pgm_text(&text, 3, 2),
        Ok(vec![vec![0, 0, 1], vec![1, 0, 1]])
    );
}

#[test]
fn writes_a_binary_matrix() {
    let m = vec![vec![0, 1], vec![255, 0]];
    assert_eq!(binary_pgm_text(&m), Ok("P2\n2 2\n255\n0 255\n255 0\n".to_string()));
}

#[test]
fn an_empty_matrix_cannot_be_written() {
    assert_eq!(binary_pgm_text(&vec![]), Err(MatrixError::Empty));
    assert_eq!(binary_pgm_text(&vec![vec![]]), Err(MatrixError::Empty));
}

#[test]
fn a_ragged_matrix_cannot_be_written() {
    assert_eq!(
        binary_pgm_text(&vec![vec![0, 1], vec![1]]),
        Err(MatrixError::RaggedRow { row: 1, len: 1, expected: 2 })
    );
}

#[test]
fn a_matrix_with_another_value_cannot_be_written() {
    assert_eq!(
        binary_pgm_text(&vec![vec![0, 1], vec![0, 2]]),
        Err(MatrixError::InvalidValue { value: 2, row: 1, col: 1 })
    );
}

#[test]
fn the_first_problem_is_reported() {
    assert_eq!(
        binary_pgm_text(&vec![vec![0, 7], vec![1]]),
        Err(MatrixError::InvalidValue { value: 7, row: 0, col: 1 })
    );
}

#[test]
fn a_written_binary_matrix_binarises_back_to_its_bits() {
    let m = vec![vec![0, 1, 255], vec![255, 0, 0], vec![1, 1, 0]];
    let text = binary_pgm_text(&m).unwrap();
    assert_eq!(
        binarize_pgm_text(&text, 3, 3),
        Ok(vec![vec![0, 1, 1], vec![1, 0, 0], vec![1, 1, 0]])
    );
    let bits = vec![vec![0, 1], vec![1, 1], vec![0, 0]];
    let text = binary_pgm_text(&bits).unwrap();
    assert_eq!(binarize_pgm_text(&text, 2, 3), Ok(bits));
}
