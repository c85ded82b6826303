use bin_ocr::cut::reduce_bin;
use bin_ocr::extent::find_extent;
use bin_ocr::find_edge::search_edges;
use bin_ocr::matrix::{copy_matrix, filled_matrix};
use bin_ocr::resizing::resize_and_center;

fn square(n: usize, v: u32) -> Vec<Vec<u32>> {
    vec![vec![v; n]; n]
}

#[test]
fn edges_of_an_empty_image() {
    assert_eq!(search_edges(&vec![]), None);
    assert_eq!(search_edges(&vec![vec![]]), None);
}

#[test]
fn edges_of_an_image_without_black_pixels() {
    assert_eq!(search_edges(&square(3, 1)), None);
}

#[test]
fn edges_grow_by_one_pixel() {
    let mut m = vec![vec![1u32; 5]; 4];
    m[1][2] = 0;
    m[2][3] = 0;
    assert_eq!(search_edges(&m), Some((0, 1, 3, 4)));
}

#[test]
fn edges_stop_at_the_borders() {
    let mut m = square(3, 1);
    m[0][0] = 0;
    assert_eq!(search_edges(&m), Some((0, 0, 1, 1)));
    let mut m = square(3, 1);
    m[2][2] = 0;
    assert_eq!(search_edges(&m), Some((1, 1, 2, 2)));
}

#[test]
fn extent_of_ink_and_of_background() {
    let m = vec![vec![0, 0, 0, 0], vec![0, 3, 0, 0], vec![0, 0, 4, 0]];
    assert_eq!(find_extent(&m, true), Some((1, 1, 2, 2)));
    assert_eq!(find_extent(&m, false), Some((0, 0, 3, 2)));
    assert_eq!(find_extent(&square(2, 0), true), None);
}

#[test]
fn crops_a_rectangle() {
    let m = vec![vec![1, 2, 3], vec![4, 5, 6], vec![7, 8, 9]];
    assert_eq!(reduce_bin(&m, 1, 0, 3, 2), vec![vec![2, 3], vec![5, 6]]);
    assert_eq!(reduce_bin(&m, 0, 2, 1, 3), vec![vec![7]]);
}

#[test]
fn keeps_the_matrix_for_a_rectangle_that_does_not_fit() {
    let m = vec![vec![1, 2, 3], vec![4, 5, 6]];
    assert_eq!(reduce_bin(&m, 2, 0, 2, 1), m);
    assert_eq!(reduce_bin(&m, 0, 0, 4, 1), m);
    assert_eq!(reduce_bin(&m, 0, 1, 2, 3), m);
}

#[test]
fn crops_nothing_from_an_empty_matrix() {
    assert_eq!(reduce_bin(&vec![], 0, 0, 1, 1), Vec::<Vec<u32>>::new());
    assert_eq!(reduce_bin(&vec![vec![]], 0, 0, 1, 1), Vec::<Vec<u32>>::new());
}

#[test]
fn centring_an_empty_image() {
    assert_eq!(resize_and_center(&vec![]), Vec::<Vec<u32>>::new());
    assert_eq!(resize_and_center(&vec![vec![]]), Vec::<Vec<u32>>::new());
}

#[test]
fn centring_an_image_without_ink_gives_a_blank_square() {
    assert_eq!(resize_and_center(&square(2, 0)), square(28, 0));
}

#[test]
fn centring_a_single_pixel() {
    let m = vec![vec![0, 0, 0], vec![0, 5, 0], vec![0, 0, 0]];
    let mut expected = square(9, 0);
    expected[4][4] = 255;
    assert_eq!(resize_and_center(&m), expected);
}

#[test]
fn centring_a_wide_digit() {
    let m = vec![vec![0, 7, 7, 0]];
    let mut expected = square(10, 0);
    expected[4][4] = 255;
    expected[4][5] = 255;
    assert_eq!(resize_and_center(&m), expected);
}

#[test]
fn centring_a_tall_digit() {
    let m = vec![vec![1, 0], vec![1, 0], vec![1, 0]];
    let mut expected = square(11, 0);
    for r in 4..7 {
        expected[r][5] = 255;
    }
    assert_eq!(resize_and_center(&m), expected);
}

#[test]
fn centring_twice_changes_nothing() {
    let m = vec![
        vec![0, 0, 0, 0, 0],
        vec![0, 1, 1, 0, 0],
        vec![0, 0, 1, 0, 0],
        vec![0, 0, 1, 1, 0],
    ];
    let once = resize_and_center(&m);
    assert_eq!(resize_and_center(&once), once);
}

#[test]
fn centring_a_three_by_three_digit() {
    let m = vec![
        vec![0, 0, 0, 0, 0, 0],
        vec![0, 1, 1, 1, 0, 0],
        vec![0, 0, 0, 1, 0, 0],
        vec![0, 1, 1, 1, 0, 0],
        vec![0, 0, 0, 0, 0, 0],
    ];
    let centred = resize_and_center(&m);
    assert_eq!(centred.len(), 11);
    assert_eq!(centred[4][4..7], [255, 255, 255]);
    assert_eq!(centred[5][4..7], [0, 0, 255]);
    assert_eq!(centred[6][4..7], [255, 255, 255]);
}

#[test]
fn matrix_helpers() {
    let m = filled_matrix(2, 3, 7);
    assert_eq!(m, vec![vec![7, 7, 7], vec![7, 7, 7]]);
    assert_eq!(copy_matrix(&m), m);
    assert_eq!(filled_matrix(0, 3, 1), Vec::<Vec<u32>>::new());
}

#[test]
fn centring_ignores_position_and_ink_values() {
    let a = vec![
        vec![0, 0, 0, 0],
        vec![0, 1, 1, 0],
        vec![0, 0, 1, 0],
    ];
    let b = vec![
        vec![0, 0, 0, 0, 0, 0],
        vec![0, 0, 0, 0, 0, 0],
        vec![0, 0, 0, 0, 0, 0],
        vec![0, 0, 0, 7, 9, 0],
        vec![0, 0, 0, 0, 200, 0],
    ];
    assert_eq!(resize_and_center(&a), resize_and_center(&b));
}
