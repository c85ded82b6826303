//! The frame around the black pixels of an image.
use vstd::prelude::*;
use crate::extent::{extent, find_extent, has_pixel, is_extent, lemma_extent_exists, pixel_is};
use crate::grid::{grid, rows_at_least};

verus! {

/// The extent `e = (x_min, y_min, x_max, y_max)` grown by one pixel on each
/// side that the image leaves room for, as `(top, left, bottom, right)`.
pub open spec fn frame_of(e: (int, int, int, int), w: int, h: int) -> (int, int, int, int) {
    (
        if e.1 > 0 { e.1 - 1 } else { 0 },
        if e.0 > 0 { e.0 - 1 } else { 0 },
        if e.3 + 1 < h { e.3 + 1 } else { e.3 },
        if e.2 + 1 < w { e.2 + 1 } else { e.2 },
    )
}

/// Finds the frame `(top, left, bottom, right)` around the black (zero)
/// pixels of the image, one pixel wider than they are where the image
/// allows; `None` for an empty image or one without black pixels.
pub fn search_edges(matrix: &Vec<Vec<u32>>) -> (r: Option<(usize, usize, usize, usize)>)
    requires
        matrix@.len() > 0 ==> rows_at_least(grid(*matrix), matrix@[0]@.len() as int),
    ensures
        matrix@.len() == 0 || matrix@[0]@.len() == 0 ==> r is None,
        matrix@.len() > 0 && matrix@[0]@.len() > 0 ==> ({
            let g = grid(*matrix);
            let w = matrix@[0]@.len() as int;
            &&& r is None <==> !has_pixel(g, w, false)
            &&& r matches Some(f) ==> {
                &&& (f.0 as int, f.1 as int, f.2 as int, f.3 as int) == frame_of(
                    extent(g, w, false),
                    w,
                    g.len() as int,
                )
                &&& f.2 < g.len() && f.3 < w
                &&& forall|q: (int, int)| #[trigger]
                    pixel_is(g, w, q, false) ==> f.0 <= q.1 <= f.2 && f.1 <= q.0 <= f.3
            }
        }),
{
    if matrix.len() == 0 || matrix[0].len() == 0 {
        return None;
    }
    let height = matrix.len();
    let width = matrix[0].len();
    match find_extent(matrix, false) {
        None => None,
        Some((x_min, y_min, x_max, y_max)) => {
            proof {
                let g = grid(*matrix);
                let e = extent(g, width as int, false);
                assert(is_extent(g, width as int, false, e));
            }
            let frame_top = if y_min > 0 { y_min - 1 } else { 0 };
            let frame_left = if x_min > 0 { x_min - 1 } else { 0 };
            let frame_bottom = if y_max + 1 < height { y_max + 1 } else { y_max };
            let frame_right = if x_max + 1 < width { x_max + 1 } else { x_max };
            Some((frame_top, frame_left, frame_bottom, frame_right))
        },
    }
}

/// The frame of `search_edges` hugs the black pixels: its top row is the row
/// just above the highest black pixel (row 0 when that pixel is in row 0),
/// its left column the column just left of the leftmost black pixel (column
/// 0 when that pixel is in column 0), its bottom row the row just below the
/// lowest black pixel (the last row when that pixel is in it), and its right
/// column the column just right of the rightmost black pixel (the last
/// column when that pixel is in it).
pub proof fn law_frame_hugs_black_pixels(g: Seq<Seq<u32>>, f: (int, int, int, int))
    requires
        g.len() > 0,
        g[0].len() > 0,
        has_pixel(g, g[0].len() as int, false),
        f == frame_of(extent(g, g[0].len() as int, false), g[0].len() as int, g.len() as int),
    ensures
        ({
            let w = g[0].len() as int;
            let h = g.len() as int;
            &&& forall|q: (int, int)| #[trigger]
                pixel_is(g, w, q, false) ==> q.1 >= f.0 + 1 || (q.1 == 0 && f.0 == 0)
            &&& exists|q: (int, int)| #[trigger]
                pixel_is(g, w, q, false) && (q.1 == f.0 + 1 || (q.1 == 0 && f.0 == 0))
            &&& forall|q: (int, int)| #[trigger]
                pixel_is(g, w, q, false) ==> q.0 >= f.1 + 1 || (q.0 == 0 && f.1 == 0)
            &&& exists|q: (int, int)| #[trigger]
                pixel_is(g, w, q, false) && (q.0 == f.1 + 1 || (q.0 == 0 && f.1 == 0))
            &&& forall|q: (int, int)| #[trigger]
                pixel_is(g, w, q, false) ==> q.1 <= f.2 - 1 || (q.1 == h - 1 && f.2 == h - 1)
            &&& exists|q: (int, int)| #[trigger]
                pixel_is(g, w, q, false) && (q.1 == f.2 - 1 || (q.1 == h - 1 && f.2 == h - 1))
            &&& forall|q: (int, int)| #[trigger]
                pixel_is(g, w, q, false) ==> q.0 <= f.3 - 1 || (q.0 == w - 1 && f.3 == w - 1)
            &&& exists|q: (int, int)| #[trigger]
                pixel_is(g, w, q, false) && (q.0 == f.3 - 1 || (q.0 == w - 1 && f.3 == w - 1))
        }),
{
    let w = g[0].len() as int;
    let h = g.len() as int;
    lemma_extent_exists(g, w, false);
    let e = extent(g, w, false);
    let q0 = choose|q: (int, int)| #[trigger] pixel_is(g, w, q, false) && q.0 == e.0;
    let q1 = choose|q: (int, int)| #[trigger] pixel_is(g, w, q, false) && q.1 == e.1;
    let q2 = choose|q: (int, int)| #[trigger] pixel_is(g, w, q, false) && q.0 == e.2;
    let q3 = choose|q: (int, int)| #[trigger] pixel_is(g, w, q, false) && q.1 == e.3;
    assert(pixel_is(g, w, q0, false) && pixel_is(g, w, q1, false));
    assert(pixel_is(g, w, q2, false) && pixel_is(g, w, q3, false));
}

} // verus!
