use bin_ocr::listing::sorted_paths;
use bin_ocr::formats::{is_convertible_extension, is_loadable_extension};
use bin_ocr::imaging::{
    binarize_rgba, image_to_pgm, load_binary_matrix, load_light_matrix, matrix_to_gray,
    matrix_to_png, LoadError, SaveError,
};
use bin_ocr::read_csv::{parse_digits_csv, parse_labels_csv, DatasetError};

#[test]
fn a_saved_matrix_loads_back() {
    let m = vec![vec![0, 1, 0], vec![1, 255, 0]];
    let png = matrix_to_png(&m).unwrap();
    assert_eq!(&png[1..4], b"PNG");
    assert_eq!(
        load_binary_matrix(&png).unwrap(),
        vec![vec![0, 1, 0], vec![1, 1, 0]]
    );
    assert_eq!(
        load_light_matrix(&png).unwrap(),
        vec![vec![0, 1, 0], vec![1, 1, 0]]
    );
}

#[test]
fn a_decoded_image_is_written_as_pgm() {
    let m = vec![vec![0, 1], vec![1, 0]];
    let png = matrix_to_png(&m).unwrap();
    let (text, w, h) = image_to_pgm(&png).unwrap();
    assert_eq!((w, h), (2, 2));
    assert_eq!(text, "P2\n2 2\n255\n0 255 \n255 0 \n");
}

#[test]
fn bytes_that_are_no_image_are_refused() {
    assert!(matches!(load_binary_matrix(b"not an image"), Err(LoadError::Decode(_))));
    assert!(load_light_matrix(b"not an image").is_err());
    assert!(image_to_pgm(b"").is_err());
}

#[test]
fn an_empty_matrix_cannot_be_saved() {
    assert!(matches!(matrix_to_png(&vec![]), Err(SaveError::Empty)));
    assert!(matches!(matrix_to_png(&vec![vec![]]), Err(SaveError::Empty)));
}

#[test]
fn grey_levels_of_a_matrix() {
    assert_eq!(matrix_to_gray(&vec![vec![0, 3], vec![1]]), vec![0, 255, 255, 0]);
}

#[test]
fn light_pixels_are_those_of_mean_220() {
    let rgba = vec![220, 220, 220, 255, 219, 220, 220, 255, 255, 0, 255, 0];
    assert_eq!(binarize_rgba(3, 1, &rgba), vec![vec![1, 0, 0]]);
    let rgba = vec![255, 255, 200, 255];
    assert_eq!(binarize_rgba(1, 1, &rgba), vec![vec![1]]);
}

#[test]
fn reads_the_pixels_of_the_digits() {
    let csv = b"p0;p1\n1;2\n3; 4 \n";
    assert_eq!(parse_digits_csv(csv), Ok(vec![vec![1, 2], vec![3, 4]]));
}

#[test]
fn the_header_record_is_skipped() {
    assert_eq!(parse_digits_csv(b"p0;p1\n"), Ok(vec![]));
    assert_eq!(parse_labels_csv(b"label\n"), Ok(vec![]));
}

#[test]
fn a_pixel_that_is_no_number_is_reported() {
    let csv = b"p0;p1\n1;2\n3;x\n";
    assert_eq!(parse_digits_csv(csv), Err(DatasetError::Pixel { record: 1, field: 1 }));
}

#[test]
fn a_malformed_csv_is_reported() {
    let csv = b"p0;p1\n1;2\n3\n";
    assert!(matches!(parse_digits_csv(csv), Err(DatasetError::Csv(_))));
}

#[test]
fn a_bad_pixel_before_a_malformed_record_comes_first() {
    let csv = b"p0;p1\n1;x\n3\n";
    assert_eq!(parse_digits_csv(csv), Err(DatasetError::Pixel { record: 0, field: 1 }));
}

#[test]
fn reads_the_labels() {
    assert_eq!(parse_labels_csv(b"label\n7\n 3\n"), Ok(vec![7, 3]));
    assert_eq!(parse_labels_csv(b"label,x\n7,1\n3,q\n"), Ok(vec![7, 3]));
}

#[test]
fn a_label_that_is_no_number_is_reported() {
    assert_eq!(
        parse_labels_csv(b"label,x\n7,1\nq,2\n"),
        Err(DatasetError::Label { record: 1 })
    );
}

#[test]
fn extensions_of_convertible_images() {
    for ext in ["png", "PNG", "Jpg", "jpeg", "bmp", "GIF"] {
        assert!(is_convertible_extension(ext), "{}", ext);
    }
    for ext in ["", "tiff", "webp", "pgm", "pngx", "pn", "jpeg "] {
        assert!(!is_convertible_extension(ext), "{}", ext);
    }
}

#[test]
fn extensions_of_loadable_images() {
    for ext in ["png", "jpg", "JPEG", "bmp", "gif", "TIFF", "WebP"] {
        assert!(is_loadable_extension(ext), "{}", ext);
    }
    for ext in ["", "pgm", "tif", "ＰＮＧ"] {
        assert!(!is_loadable_extension(ext), "{}", ext);
    }
}

#[test]
fn paths_in_the_order_of_strings() {
    let paths: Vec<String> = ["src/img/b.png", "src/img/B.png", "src/img/a10.png", "src/img/a2.png", "src/img/a.png", "src/img/é.png", "src/img/a.png"]
        .iter()
        .map(|s| s.to_string())
        .collect();
    let mut expected = paths.clone();
    expected.sort();
    assert_eq!(sorted_paths(paths), expected);
    assert_eq!(sorted_paths(vec![]), Vec::<String>::new());
}
