use bin_ocr::midsized_letter::{find_digit, midsized_digit};
use bin_ocr::position_sort::sort_by_position;

/// White background (1) with two black (0) components: a 2 x 2 square at
/// (1, 1) and a 1 x 3 bar at (5, 1).
fn two_digits() -> Vec<Vec<u32>> {
    vec![
        vec![1, 1, 1, 1, 1, 1, 1],
        vec![1, 0, 0, 1, 1, 0, 1],
        vec![1, 0, 0, 1, 1, 0, 1],
        vec![1, 1, 1, 1, 1, 0, 1],
        vec![1, 1, 1, 1, 1, 1, 1],
    ]
}

#[test]
fn average_size_of_the_components() {
    let size = midsized_digit(&two_digits()).unwrap();
    assert_eq!(size.avg_width, 1);
    assert_eq!(size.avg_height, 2);
}

#[test]
fn no_average_without_components() {
    assert!(midsized_digit(&vec![vec![1; 4]; 3]).is_none());
    assert!(midsized_digit(&vec![]).is_none());
    assert!(midsized_digit(&vec![vec![]]).is_none());
}

#[test]
fn ink_is_the_colour_the_corner_does_not_have() {
    let m = vec![vec![0, 0, 0], vec![0, 5, 0], vec![0, 0, 0]];
    let size = midsized_digit(&m).unwrap();
    assert_eq!((size.avg_width, size.avg_height), (1, 1));
}

#[test]
fn components_touch_by_sides_only() {
    let m = vec![vec![0, 0, 0], vec![0, 1, 0], vec![0, 0, 1]];
    let size = midsized_digit(&m).unwrap();
    assert_eq!((size.avg_width, size.avg_height), (1, 1));
    assert_eq!(find_digit(&m, 1, 1), Some(vec![(1, 1, 1, 1), (2, 2, 2, 2)]));
}

#[test]
fn finds_the_digits_in_reading_order() {
    assert_eq!(
        find_digit(&two_digits(), 1, 2),
        Some(vec![(1, 1, 2, 2), (5, 1, 5, 3)])
    );
}

#[test]
fn small_components_are_not_digits() {
    assert_eq!(find_digit(&two_digits(), 8, 8), None);
}

#[test]
fn digits_are_ordered_by_top_then_left() {
    let m = vec![
        vec![0, 0, 0, 0, 1],
        vec![0, 0, 0, 0, 0],
        vec![1, 0, 0, 0, 0],
        vec![1, 0, 0, 1, 0],
        vec![0, 0, 0, 1, 0],
    ];
    let found = find_digit(&m, 1, 1).unwrap();
    assert_eq!(found, vec![(4, 0, 4, 0), (0, 2, 0, 3), (3, 3, 3, 4)]);
}

#[test]
fn shape_tests_follow_the_averages() {
    // a 1 x 6 bar: too thin when its ratio reaches five
    let mut m = vec![vec![0u32; 3]; 8];
    for y in 1..7 {
        m[y][1] = 1;
    }
    assert_eq!(find_digit(&m, 1, 1), None);
    // a 1 x 4 bar passes
    let mut m = vec![vec![0u32; 3]; 6];
    for y in 1..5 {
        m[y][1] = 1;
    }
    assert_eq!(find_digit(&m, 1, 1), Some(vec![(1, 1, 1, 4)]));
    // height at 65% of the average: 13 of 20 passes, 12 does not
    let mut m = vec![vec![0u32; 20]; 15];
    for y in 1..14 {
        for x in 1..14 {
            m[y][x] = 1;
        }
    }
    assert_eq!(find_digit(&m, 4, 20), Some(vec![(1, 1, 13, 13)]));
    let mut m = vec![vec![0u32; 20]; 15];
    for y in 1..13 {
        for x in 1..14 {
            m[y][x] = 1;
        }
    }
    assert_eq!(find_digit(&m, 4, 20), None);
}

#[test]
fn no_digits_in_an_empty_image() {
    assert_eq!(find_digit(&vec![], 1, 1), None);
    assert_eq!(find_digit(&vec![vec![]], 1, 1), None);
}

#[test]
fn sorting_is_stable() {
    let v = vec![(3, 1, 3, 1), (0, 2, 0, 2), (1, 1, 1, 1), (3, 1, 4, 4)];
    assert_eq!(
        sort_by_position(&v),
        vec![(1, 1, 1, 1), (3, 1, 3, 1), (3, 1, 4, 4), (0, 2, 0, 2)]
    );
    assert_eq!(sort_by_position(&vec![]), vec![]);
}

/// Bounding boxes of the 4-connected components of the non-zero pixels.
fn component_boxes_by_search(m: &Vec<Vec<u32>>) -> Vec<(usize, usize, usize, usize)> {
    let h = m.len();
    let w = m[0].len();
    let mut seen = vec![vec![false; w]; h];
    let mut boxes = Vec::new();
    for y in 0..h {
        for x in 0..w {
            if m[y][x] == 0 || seen[y][x] {
                continue;
            }
            let mut b = (x, y, x, y);
            let mut stack = vec![(x, y)];
            seen[y][x] = true;
            while let Some((cx, cy)) = stack.pop() {
                b = (b.0.min(cx), b.1.min(cy), b.2.max(cx), b.3.max(cy));
                let mut next = Vec::new();
                if cx + 1 < w { next.push((cx + 1, cy)); }
                if cx > 0 { next.push((cx - 1, cy)); }
                if cy + 1 < h { next.push((cx, cy + 1)); }
                if cy > 0 { next.push((cx, cy - 1)); }
                for (nx, ny) in next {
                    if m[ny][nx] != 0 && !seen[ny][nx] {
                        seen[ny][nx] = true;
                        stack.push((nx, ny));
                    }
                }
            }
            boxes.push(b);
        }
    }
    boxes
}

#[test]
fn found_boxes_bound_components() {
    let m = vec![
        vec![0, 0, 0, 0, 0, 0, 0, 0],
        vec![0, 1, 1, 0, 0, 1, 0, 0],
        vec![0, 0, 1, 0, 1, 1, 1, 0],
        vec![0, 1, 1, 0, 0, 1, 0, 0],
        vec![0, 0, 0, 0, 0, 0, 0, 1],
    ];
    let all = component_boxes_by_search(&m);
    let found = find_digit(&m, 2, 2).unwrap();
    assert!(!found.is_empty());
    for b in &found {
        assert!(all.contains(b), "{:?}", b);
    }
    assert_eq!(found, vec![(1, 1, 2, 3), (4, 1, 6, 3)]);
    assert!(all.contains(&(7, 4, 7, 4)));
}

#[test]
fn inverting_the_image_changes_no_result() {
    let m = two_digits();
    let inv: Vec<Vec<u32>> = m
        .iter()
        .map(|row| row.iter().map(|&v| if v == 0 { 1 } else { 0 }).collect())
        .collect();
    let a = midsized_digit(&m).unwrap();
    let b = midsized_digit(&inv).unwrap();
    assert_eq!((a.avg_width, a.avg_height), (b.avg_width, b.avg_height));
    assert_eq!(find_digit(&m, 1, 2), find_digit(&inv, 1, 2));
    let back: Vec<Vec<u32>> = inv
        .iter()
        .map(|row| row.iter().map(|&v| if v == 0 { 1 } else { 0 }).collect())
        .collect();
    assert_eq!(back, m);
}

#[test]
fn larger_averages_only_drop_digits() {
    let m = vec![
        vec![0, 0, 0, 0, 0, 0, 0, 0],
        vec![0, 1, 1, 0, 0, 1, 0, 0],
        vec![0, 0, 1, 0, 1, 1, 1, 0],
        vec![0, 1, 1, 0, 0, 1, 0, 0],
        vec![0, 0, 0, 0, 0, 0, 0, 1],
    ];
    let small = find_digit(&m, 1, 1).unwrap_or_default();
    for (aw, ah) in [(1, 1), (2, 2), (3, 4), (6, 4), (12, 12)] {
        let large = find_digit(&m, aw, ah).unwrap_or_default();
        for b in &large {
            assert!(small.contains(b), "{:?} at {:?}", b, (aw, ah));
        }
    }
    assert_eq!(small.len(), 3);
    assert_eq!(find_digit(&m, 12, 12), None);
}
