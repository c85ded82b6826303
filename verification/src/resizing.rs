//! Squaring and centring of a digit: the ink is cropped, centred in a
//! square and surrounded by a margin of four pixels.
use vstd::prelude::*;
use crate::extent::{
    extent, find_extent, has_pixel, is_extent, lemma_extent_exists, lemma_extent_unique, pixel_is,
};
use crate::grid::{grid, rows_at_least};
use crate::matrix::filled_matrix;

verus! {

/// Width of the blank margin around the centred digit.
pub open spec fn margin() -> int {
    4
}

/// Placement of the ink extent `e` in the square: `(side, top, left, height,
/// width)` of the square and of the ink's rectangle within it.
pub open spec fn placement(e: (int, int, int, int)) -> (int, int, int, int, int) {
    let dh = e.3 - e.1 + 1;
    let dw = e.2 - e.0 + 1;
    let d = if dh >= dw { dh } else { dw };
    (d + 2 * margin(), margin() + (d - dh) / 2, margin() + (d - dw) / 2, dh, dw)
}

/// The centred square: empty for an empty image, a blank 28 x 28 square
/// when there is no ink, and otherwise a square whose pixels are 255 where
/// the cropped ink is and 0 elsewhere.
pub open spec fn centered(g: Seq<Seq<u32>>) -> Seq<Seq<u32>> {
    if g.len() == 0 || g[0].len() == 0 {
        Seq::empty()
    } else if !has_pixel(g, g[0].len() as int, true) {
        Seq::new(28, |i: int| Seq::new(28, |j: int| 0u32))
    } else {
        let e = extent(g, g[0].len() as int, true);
        let (n, top, left, dh, dw) = placement(e);
        Seq::new(
            n as nat,
            |i: int|
                Seq::new(
                    n as nat,
                    |j: int|
                        if top <= i < top + dh && left <= j < left + dw && g[e.1 + i - top][e.0 + j
                            - left] != 0 {
                            255u32
                        } else {
                            0u32
                        },
                ),
        )
    }
}

/// Crops the ink (non-zero pixels) of the image, centres it in a square
/// with a margin of four pixels and sets its pixels to 255; an image without
/// ink gives a blank 28 x 28 square and an empty image an empty one.
pub fn resize_and_center(matrix: &Vec<Vec<u32>>) -> (r: Vec<Vec<u32>>)
    requires
        matrix@.len() > 0 ==> rows_at_least(grid(*matrix), matrix@[0]@.len() as int),
        matrix@.len() + 8 <= usize::MAX,
        matrix@.len() > 0 ==> matrix@[0]@.len() + 8 <= usize::MAX,
    ensures
        grid(r) == centered(grid(*matrix)),
{
    let old_height = matrix.len();
    if old_height == 0 {
        let empty: Vec<Vec<u32>> = Vec::new();
        proof {
            assert(grid(empty) =~= Seq::<Seq<u32>>::empty());
        }
        return empty;
    }
    let old_width = matrix[0].len();
    if old_width == 0 {
        let empty: Vec<Vec<u32>> = Vec::new();
        proof {
            assert(grid(empty) =~= Seq::<Seq<u32>>::empty());
        }
        return empty;
    }
    let ghost g = grid(*matrix);
    proof {
        assert(g[0] == matrix@[0]@);
    }
    match find_extent(matrix, true) {
        None => filled_matrix(28, 28, 0),
        Some((min_c, min_r, max_c, max_r)) => {
            let ghost e = extent(g, old_width as int, true);
            let digit_height = max_r - min_r + 1;
            let digit_width = max_c - min_c + 1;
            let digit_max_dim = if digit_height >= digit_width { digit_height } else { digit_width };
            let padding: usize = 4;
            let new_dim = digit_max_dim + padding * 2;
            let pad_top = padding + (digit_max_dim - digit_height) / 2;
            let pad_left = padding + (digit_max_dim - digit_width) / 2;
            let ghost target = centered(g);
            proof {
                assert(placement(e) == (new_dim as int, pad_top as int, pad_left as int, digit_height as int, digit_width as int));
            }
            let mut new_matrix: Vec<Vec<u32>> = Vec::with_capacity(new_dim);
            let mut i: usize = 0;
            while i < new_dim
                invariant
                    g == grid(*matrix),
                    rows_at_least(g, old_width as int),
                    old_width == g[0].len(),
                    i <= new_dim,
                    new_dim as int == target.len(),
                    min_r <= max_r < g.len(),
                    min_c <= max_c < old_width,
                    digit_height == max_r - min_r + 1,
                    digit_width == max_c - min_c + 1,
                    pad_top <= new_dim,
                    pad_left <= new_dim,
                    pad_top + digit_height <= new_dim,
                    pad_left + digit_width <= new_dim,
                    forall|k: int| 0 <= k < target.len() ==> #[trigger] target[k].len() == new_dim,
                    forall|k: int, j: int|
                        0 <= k < target.len() && 0 <= j < new_dim ==> #[trigger] target[k][j] == if pad_top <= k
                            < pad_top + digit_height && pad_left <= j < pad_left + digit_width && g[min_r
                            + k - pad_top][min_c + j - pad_left] != 0 {
                            255u32
                        } else {
                            0u32
                        },
                    grid(new_matrix) == target.take(i as int),
                decreases new_dim - i,
            {
                let mut row: Vec<u32> = Vec::with_capacity(new_dim);
                let mut j: usize = 0;
                while j < new_dim
                    invariant
                        g == grid(*matrix),
                        rows_at_least(g, old_width as int),
                        old_width == g[0].len(),
                        i < new_dim,
                        j <= new_dim,
                        new_dim as int == target.len(),
                        min_r <= max_r < g.len(),
                        min_c <= max_c < old_width,
                        digit_height == max_r - min_r + 1,
                        digit_width == max_c - min_c + 1,
                        pad_top + digit_height <= new_dim,
                        pad_left + digit_width <= new_dim,
                        forall|k: int| 0 <= k < target.len() ==> #[trigger] target[k].len() == new_dim,
                        forall|k: int, jj: int|
                            0 <= k < target.len() && 0 <= jj < new_dim ==> #[trigger] target[k][jj] == if pad_top
                                <= k < pad_top + digit_height && pad_left <= jj < pad_left + digit_width
                                && g[min_r + k - pad_top][min_c + jj - pad_left] != 0 {
                                255u32
                            } else {
                                0u32
                            },
                        row@ == target[i as int].take(j as int),
                    decreases new_dim - j,
                {
                    let mut value: u32 = 0;
                    if pad_top <= i && i < pad_top + digit_height && pad_left <= j && j < pad_left
                        + digit_width {
                        let src_r = min_r + (i - pad_top);
                        let src_c = min_c + (j - pad_left);
                        proof {
                            assert(g[src_r as int].len() >= old_width);
                            assert(g[src_r as int] == matrix@[src_r as int]@);
                        }
                        if matrix[src_r][src_c] > 0 {
                            value = 255;
                        }
                    }
                    row.push(value);
                    j = j + 1;
                    proof {
                        assert(row@ =~= target[i as int].take(j as int));
                    }
                }
                proof {
                    assert(row@ =~= target[i as int]);
                }
                let ghost before = grid(new_matrix);
                new_matrix.push(row);
                assert(grid(new_matrix) =~= before.push(row@));
                i = i + 1;
                proof {
                    assert(grid(new_matrix) =~= target.take(i as int));
                }
            }
            proof {
                assert(target.take(new_dim as int) =~= target);
            }
            new_matrix
        },
    }
}


/// Centring is idempotent: a centred square is centred again unchanged.
pub proof fn law_resize_and_center_idempotent(g: Seq<Seq<u32>>)
    requires
        g.len() > 0 ==> rows_at_least(g, g[0].len() as int),
    ensures
        centered(centered(g)) == centered(g),
{
    let c = centered(g);
    if g.len() == 0 || g[0].len() == 0 {
    } else if !has_pixel(g, g[0].len() as int, true) {
        assert(c.len() == 28 && c[0].len() == 28);
        assert forall|q: (int, int)| !pixel_is(c, 28, q, true) by {}
        assert(!has_pixel(c, 28, true));
    } else {
        let w = g[0].len() as int;
        let e = extent(g, w, true);
        let (n, top, left, dh, dw) = placement(e);
        lemma_extent_exists(g, w, true);
        assert(c.len() == n);
        assert(c[0].len() == n);
        // pixels of c are the ink of g moved by (left - e.0, top - e.1)
        assert forall|q: (int, int)| #[trigger] pixel_is(c, n, q, true) == (
            top <= q.1 < top + dh && left <= q.0 < left + dw && pixel_is(
                g,
                w,
                (e.0 + q.0 - left, e.1 + q.1 - top),
                true,
            )) by {
            if top <= q.1 < top + dh && left <= q.0 < left + dw {
                assert(g[e.1 + q.1 - top].len() >= w);
            }
        }
        let e2 = (left, top, left + dw - 1, top + dh - 1);
        let q0 = choose|q: (int, int)| #[trigger] pixel_is(g, w, q, true) && q.0 == e.0;
        let q1 = choose|q: (int, int)| #[trigger] pixel_is(g, w, q, true) && q.1 == e.1;
        let q2 = choose|q: (int, int)| #[trigger] pixel_is(g, w, q, true) && q.0 == e.2;
        let q3 = choose|q: (int, int)| #[trigger] pixel_is(g, w, q, true) && q.1 == e.3;
        assert(pixel_is(c, n, (left + q0.0 - e.0, top + q0.1 - e.1), true));
        assert(pixel_is(c, n, (left + q1.0 - e.0, top + q1.1 - e.1), true));
        assert(pixel_is(c, n, (left + q2.0 - e.0, top + q2.1 - e.1), true));
        assert(pixel_is(c, n, (left + q3.0 - e.0, top + q3.1 - e.1), true));
        assert(is_extent(c, n, true, e2));
        assert(has_pixel(c, n, true));
        lemma_extent_unique(c, n, true, e2, extent(c, n, true));
        assert(placement(e2) == placement(e));
        let cc = centered(c);
        assert forall|i: int| 0 <= i < n implies #[trigger] cc[i] =~= c[i] by {
            assert forall|j: int| 0 <= j < n implies cc[i][j] == c[i][j] by {}
        }
        assert(cc =~= c);
    }
}

/// The extent of a window with ink lies inside the window.
proof fn lemma_extent_in_window(g: Seq<Seq<u32>>, w: int)
    requires
        has_pixel(g, w, true),
    ensures
        ({
            let e = extent(g, w, true);
            0 <= e.0 <= e.2 < w && 0 <= e.1 <= e.3 < g.len()
        }),
{
    lemma_extent_exists(g, w, true);
    let e = extent(g, w, true);
    let q0 = choose|q: (int, int)| #[trigger] pixel_is(g, w, q, true) && q.0 == e.0;
    let q1 = choose|q: (int, int)| #[trigger] pixel_is(g, w, q, true) && q.1 == e.1;
    let q2 = choose|q: (int, int)| #[trigger] pixel_is(g, w, q, true) && q.0 == e.2;
    let q3 = choose|q: (int, int)| #[trigger] pixel_is(g, w, q, true) && q.1 == e.3;
    assert(pixel_is(g, w, q0, true) && pixel_is(g, w, q2, true));
    assert(pixel_is(g, w, q1, true) && pixel_is(g, w, q3, true));
}

/// Two windows whose ink pixels are the same up to the translation
/// `(dx, dy)`.
pub open spec fn ink_translated(g1: Seq<Seq<u32>>, g2: Seq<Seq<u32>>, dx: int, dy: int) -> bool {
    forall|q: (int, int)|
        #[trigger] pixel_is(g1, g1[0].len() as int, q, true) == pixel_is(
            g2,
            g2[0].len() as int,
            (q.0 + dx, q.1 + dy),
            true,
        )
}

proof fn lemma_ink_back(g1: Seq<Seq<u32>>, g2: Seq<Seq<u32>>, dx: int, dy: int, q: (int, int))
    requires
        ink_translated(g1, g2, dx, dy),
    ensures
        pixel_is(g2, g2[0].len() as int, q, true) == pixel_is(
            g1,
            g1[0].len() as int,
            (q.0 - dx, q.1 - dy),
            true,
        ),
{
    let p = (q.0 - dx, q.1 - dy);
    assert(pixel_is(g1, g1[0].len() as int, p, true) == pixel_is(
        g2,
        g2[0].len() as int,
        (p.0 + dx, p.1 + dy),
        true,
    ));
    assert((p.0 + dx, p.1 + dy) == q);
}

proof fn lemma_extent_translated(g1: Seq<Seq<u32>>, g2: Seq<Seq<u32>>, dx: int, dy: int)
    requires
        g1.len() > 0,
        g2.len() > 0,
        ink_translated(g1, g2, dx, dy),
        has_pixel(g1, g1[0].len() as int, true),
    ensures
        has_pixel(g2, g2[0].len() as int, true),
        ({
            let e1 = extent(g1, g1[0].len() as int, true);
            extent(g2, g2[0].len() as int, true) == (e1.0 + dx, e1.1 + dy, e1.2 + dx, e1.3 + dy)
        }),
{
    let w1 = g1[0].len() as int;
    let w2 = g2[0].len() as int;
    lemma_extent_exists(g1, w1, true);
    let e1 = extent(g1, w1, true);
    let e = (e1.0 + dx, e1.1 + dy, e1.2 + dx, e1.3 + dy);
    assert forall|q: (int, int)| #[trigger] pixel_is(g2, w2, q, true) implies e.0 <= q.0 <= e.2
        && e.1 <= q.1 <= e.3 by {
        lemma_ink_back(g1, g2, dx, dy, q);
    }
    let q0 = choose|q: (int, int)| #[trigger] pixel_is(g1, w1, q, true) && q.0 == e1.0;
    let q1 = choose|q: (int, int)| #[trigger] pixel_is(g1, w1, q, true) && q.1 == e1.1;
    let q2 = choose|q: (int, int)| #[trigger] pixel_is(g1, w1, q, true) && q.0 == e1.2;
    let q3 = choose|q: (int, int)| #[trigger] pixel_is(g1, w1, q, true) && q.1 == e1.3;
    assert(pixel_is(g2, w2, (q0.0 + dx, q0.1 + dy), true));
    assert(pixel_is(g2, w2, (q1.0 + dx, q1.1 + dy), true));
    assert(pixel_is(g2, w2, (q2.0 + dx, q2.1 + dy), true));
    assert(pixel_is(g2, w2, (q3.0 + dx, q3.1 + dy), true));
    assert(is_extent(g2, w2, true, e));
    assert(has_pixel(g2, w2, true));
    lemma_extent_exists(g2, w2, true);
    lemma_extent_unique(g2, w2, true, e, extent(g2, w2, true));
}

proof fn lemma_centered_cell_translated(
    g1: Seq<Seq<u32>>,
    g2: Seq<Seq<u32>>,
    dx: int,
    dy: int,
    i: int,
    j: int,
)
    requires
        g1.len() > 0,
        g1[0].len() > 0,
        rows_at_least(g1, g1[0].len() as int),
        g2.len() > 0,
        g2[0].len() > 0,
        rows_at_least(g2, g2[0].len() as int),
        ink_translated(g1, g2, dx, dy),
        has_pixel(g1, g1[0].len() as int, true),
        0 <= i < placement(extent(g1, g1[0].len() as int, true)).0,
        0 <= j < placement(extent(g1, g1[0].len() as int, true)).0,
    ensures
        centered(g1)[i][j] == centered(g2)[i][j],
{
    let w1 = g1[0].len() as int;
    let w2 = g2[0].len() as int;
    lemma_extent_translated(g1, g2, dx, dy);
    lemma_extent_in_window(g1, w1);
    lemma_extent_in_window(g2, w2);
    let e1 = extent(g1, w1, true);
    let e = extent(g2, w2, true);
    let (n, top, left, dh, dw) = placement(e1);
    assert(placement(e) == placement(e1));
    if top <= i < top + dh && left <= j < left + dw {
        let p1 = (e1.0 + j - left, e1.1 + i - top);
        let p2 = (e.0 + j - left, e.1 + i - top);
        assert(g1[p1.1].len() >= w1);
        assert(g2[p2.1].len() >= w2);
        assert(pixel_is(g1, w1, p1, true) == pixel_is(g2, w2, (p1.0 + dx, p1.1 + dy), true));
        assert((p1.0 + dx, p1.1 + dy) == p2);
    }
}

proof fn lemma_centered_shape(g: Seq<Seq<u32>>)
    requires
        g.len() > 0,
        g[0].len() > 0,
        has_pixel(g, g[0].len() as int, true),
    ensures
        centered(g).len() == placement(extent(g, g[0].len() as int, true)).0,
        forall|i: int|
            0 <= i < centered(g).len() ==> #[trigger] centered(g)[i].len() == placement(
                extent(g, g[0].len() as int, true),
            ).0,
{
    lemma_extent_in_window(g, g[0].len() as int);
}

/// Centring depends only on the shape of the ink: two images whose ink
/// pixels (the non-zero ones) are the same up to a translation give the
/// same square, whatever their ink values and their blank margins.
pub proof fn law_resize_and_center_translation(
    g1: Seq<Seq<u32>>,
    g2: Seq<Seq<u32>>,
    dx: int,
    dy: int,
)
    requires
        g1.len() > 0,
        g1[0].len() > 0,
        rows_at_least(g1, g1[0].len() as int),
        g2.len() > 0,
        g2[0].len() > 0,
        rows_at_least(g2, g2[0].len() as int),
        ink_translated(g1, g2, dx, dy),
    ensures
        centered(g1) == centered(g2),
{
    let w1 = g1[0].len() as int;
    let w2 = g2[0].len() as int;
    if !has_pixel(g1, w1, true) {
        if has_pixel(g2, w2, true) {
            let q = choose|q: (int, int)| #[trigger] pixel_is(g2, w2, q, true);
            lemma_ink_back(g1, g2, dx, dy, q);
        }
        assert(centered(g1) =~= centered(g2));
    } else {
        lemma_extent_translated(g1, g2, dx, dy);
        let e1 = extent(g1, w1, true);
        let n = placement(e1).0;
        assert(placement(extent(g2, w2, true)) == placement(e1));
        let c1 = centered(g1);
        let c2 = centered(g2);
        lemma_centered_shape(g1);
        lemma_centered_shape(g2);
        assert forall|i: int| 0 <= i < n implies #[trigger] c1[i] =~= c2[i] by {
            assert forall|j: int| 0 <= j < n implies c1[i][j] == c2[i][j] by {
                lemma_centered_cell_translated(g1, g2, dx, dy, i, j);
            }
        }
        assert(c1 =~= c2);
    }
}

/// Centring puts the ink in the middle of a square of pixels 0 and 255:
/// the side is the ink's larger side plus eight, the ink keeps its shape and
/// size, at least four blank lines surround it on every side, four exactly
/// on the sides of its larger dimension, and the blank lines below (right
/// of) the ink outnumber those above (left of) it by at most one.
pub proof fn law_resize_and_center_centres(g: Seq<Seq<u32>>)
    requires
        g.len() > 0,
        g[0].len() > 0,
        rows_at_least(g, g[0].len() as int),
        has_pixel(g, g[0].len() as int, true),
    ensures
        ({
            let w = g[0].len() as int;
            let e = extent(g, w, true);
            let ih = e.3 - e.1 + 1;
            let iw = e.2 - e.0 + 1;
            let c = centered(g);
            let n = c.len() as int;
            let ec = extent(c, n, true);
            &&& n == (if ih >= iw { ih } else { iw }) + 8
            &&& forall|i: int| 0 <= i < n ==> #[trigger] c[i].len() == n
            &&& forall|i: int, j: int|
                0 <= i < n && 0 <= j < n ==> #[trigger] c[i][j] == 0 || c[i][j] == 255
            &&& has_pixel(c, n, true)
            &&& ec.3 - ec.1 + 1 == ih && ec.2 - ec.0 + 1 == iw
            &&& forall|q: (int, int)| #[trigger]
                pixel_is(c, n, q, true) == pixel_is(
                    g,
                    w,
                    (q.0 - ec.0 + e.0, q.1 - ec.1 + e.1),
                    true,
                )
            &&& 0 <= (n - 1 - ec.3) - ec.1 <= 1
            &&& 0 <= (n - 1 - ec.2) - ec.0 <= 1
            &&& ec.0 >= 4 && ec.1 >= 4
            &&& (ih >= iw ==> ec.1 == 4) && (iw >= ih ==> ec.0 == 4)
        }),
{
    let w = g[0].len() as int;
    let e = extent(g, w, true);
    let c = centered(g);
    let (n, top, left, dh, dw) = placement(e);
    lemma_extent_exists(g, w, true);
    lemma_extent_in_window(g, w);
    lemma_centered_shape(g);
    assert(c.len() == n);
    assert forall|q: (int, int)| #[trigger] pixel_is(c, n, q, true) == (top <= q.1 < top + dh
        && left <= q.0 < left + dw && pixel_is(g, w, (e.0 + q.0 - left, e.1 + q.1 - top), true)) by {
        if top <= q.1 < top + dh && left <= q.0 < left + dw {
            assert(g[e.1 + q.1 - top].len() >= w);
        }
    }
    let e2 = (left, top, left + dw - 1, top + dh - 1);
    let q0 = choose|q: (int, int)| #[trigger] pixel_is(g, w, q, true) && q.0 == e.0;
    let q1 = choose|q: (int, int)| #[trigger] pixel_is(g, w, q, true) && q.1 == e.1;
    let q2 = choose|q: (int, int)| #[trigger] pixel_is(g, w, q, true) && q.0 == e.2;
    let q3 = choose|q: (int, int)| #[trigger] pixel_is(g, w, q, true) && q.1 == e.3;
    assert(pixel_is(c, n, (left + q0.0 - e.0, top + q0.1 - e.1), true));
    assert(pixel_is(c, n, (left + q1.0 - e.0, top + q1.1 - e.1), true));
    assert(pixel_is(c, n, (left + q2.0 - e.0, top + q2.1 - e.1), true));
    assert(pixel_is(c, n, (left + q3.0 - e.0, top + q3.1 - e.1), true));
    assert(is_extent(c, n, true, e2));
    assert(has_pixel(c, n, true));
    lemma_extent_unique(c, n, true, e2, extent(c, n, true));
    assert forall|q: (int, int)| #[trigger] pixel_is(c, n, q, true) == pixel_is(
        g,
        w,
        (q.0 - left + e.0, q.1 - top + e.1),
        true,
    ) by {
        let p = (q.0 - left + e.0, q.1 - top + e.1);
        assert(p == (e.0 + q.0 - left, e.1 + q.1 - top));
        if pixel_is(g, w, p, true) {
            assert(e.0 <= p.0 <= e.2 && e.1 <= p.1 <= e.3);
        }
    }
    assert forall|i: int, j: int| 0 <= i < n && 0 <= j < n implies #[trigger] c[i][j] == 0 || c[i][j]
        == 255 by {}
}

} // verus!
