//! The extent of the ink (or of the background) of an image: the smallest
//! rectangle that holds every such pixel of the window.
use vstd::prelude::*;
use crate::grid::{grid, in_window, rows_at_least};

verus! {

/// Pixel `q` of the window is ink (`ink`, a non-zero value) or background
/// (`!ink`, zero).
pub open spec fn pixel_is(g: Seq<Seq<u32>>, w: int, q: (int, int), ink: bool) -> bool {
    &&& in_window(g, w, q)
    &&& q.0 < g[q.1].len()
    &&& (g[q.1][q.0] != 0) == ink
}

/// `e = (x_min, y_min, x_max, y_max)` bounds every such pixel and each side
/// is touched by one.
pub open spec fn is_extent(g: Seq<Seq<u32>>, w: int, ink: bool, e: (int, int, int, int)) -> bool {
    &&& forall|q: (int, int)|
        #[trigger] pixel_is(g, w, q, ink) ==> e.0 <= q.0 <= e.2 && e.1 <= q.1 <= e.3
    &&& exists|q: (int, int)| #[trigger] pixel_is(g, w, q, ink) && q.0 == e.0
    &&& exists|q: (int, int)| #[trigger] pixel_is(g, w, q, ink) && q.1 == e.1
    &&& exists|q: (int, int)| #[trigger] pixel_is(g, w, q, ink) && q.0 == e.2
    &&& exists|q: (int, int)| #[trigger] pixel_is(g, w, q, ink) && q.1 == e.3
}

pub open spec fn has_pixel(g: Seq<Seq<u32>>, w: int, ink: bool) -> bool {
    exists|q: (int, int)| #[trigger] pixel_is(g, w, q, ink)
}

/// The extent of the ink (or background) pixels of the window.
pub open spec fn extent(g: Seq<Seq<u32>>, w: int, ink: bool) -> (int, int, int, int) {
    choose|e: (int, int, int, int)| is_extent(g, w, ink, e)
}

pub proof fn lemma_extent_unique(
    g: Seq<Seq<u32>>,
    w: int,
    ink: bool,
    e1: (int, int, int, int),
    e2: (int, int, int, int),
)
    requires
        is_extent(g, w, ink, e1),
        is_extent(g, w, ink, e2),
    ensures
        e1 == e2,
{
}

/// Some such pixel lies in column `k` (`col`) or in row `k` (`!col`).
pub open spec fn line_has(g: Seq<Seq<u32>>, w: int, ink: bool, col: bool, k: int) -> bool {
    if col {
        exists|y: int| #[trigger] pixel_is(g, w, (k, y), ink)
    } else {
        exists|x: int| #[trigger] pixel_is(g, w, (x, k), ink)
    }
}

proof fn first_line(g: Seq<Seq<u32>>, w: int, ink: bool, col: bool, lo: int, hi: int) -> (m: int)
    requires
        exists|k: int| lo <= k < hi && #[trigger] line_has(g, w, ink, col, k),
    ensures
        lo <= m < hi,
        line_has(g, w, ink, col, m),
        forall|k: int| lo <= k < m ==> !#[trigger] line_has(g, w, ink, col, k),
    decreases hi - lo,
{
    if line_has(g, w, ink, col, lo) {
        lo
    } else {
        let k0 = choose|k: int| lo <= k < hi && #[trigger] line_has(g, w, ink, col, k);
        assert(lo + 1 <= k0 < hi);
        first_line(g, w, ink, col, lo + 1, hi)
    }
}

proof fn last_line(g: Seq<Seq<u32>>, w: int, ink: bool, col: bool, lo: int, hi: int) -> (m: int)
    requires
        exists|k: int| lo <= k < hi && #[trigger] line_has(g, w, ink, col, k),
    ensures
        lo <= m < hi,
        line_has(g, w, ink, col, m),
        forall|k: int| m < k < hi ==> !#[trigger] line_has(g, w, ink, col, k),
    decreases hi - lo,
{
    if line_has(g, w, ink, col, hi - 1) {
        hi - 1
    } else {
        let k0 = choose|k: int| lo <= k < hi && #[trigger] line_has(g, w, ink, col, k);
        assert(lo <= k0 < hi - 1);
        last_line(g, w, ink, col, lo, hi - 1)
    }
}

proof fn lemma_extent_from_sides(
    g: Seq<Seq<u32>>,
    w: int,
    ink: bool,
    x0: int,
    x1: int,
    y0: int,
    y1: int,
)
    requires
        line_has(g, w, ink, true, x0),
        line_has(g, w, ink, true, x1),
        line_has(g, w, ink, false, y0),
        line_has(g, w, ink, false, y1),
        forall|x: int| 0 <= x < x0 ==> !#[trigger] line_has(g, w, ink, true, x),
        forall|x: int| x1 < x < w ==> !#[trigger] line_has(g, w, ink, true, x),
        forall|y: int| 0 <= y < y0 ==> !#[trigger] line_has(g, w, ink, false, y),
        forall|y: int| y1 < y < g.len() ==> !#[trigger] line_has(g, w, ink, false, y),
    ensures
        is_extent(g, w, ink, (x0, y0, x1, y1)),
{
    assert forall|r: (int, int)| #[trigger] pixel_is(g, w, r, ink) implies x0 <= r.0 <= x1 && y0
        <= r.1 <= y1 by {
        assert(line_has(g, w, ink, true, r.0));
        assert(line_has(g, w, ink, false, r.1));
    }
    let a = choose|y: int| #[trigger] pixel_is(g, w, (x0, y), ink);
    let b = choose|x: int| #[trigger] pixel_is(g, w, (x, y0), ink);
    let c = choose|y: int| #[trigger] pixel_is(g, w, (x1, y), ink);
    let d = choose|x: int| #[trigger] pixel_is(g, w, (x, y1), ink);
    assert(pixel_is(g, w, (x0, a), ink) && pixel_is(g, w, (b, y0), ink));
    assert(pixel_is(g, w, (x1, c), ink) && pixel_is(g, w, (d, y1), ink));
}

/// A window with such a pixel has an extent.
pub proof fn lemma_extent_exists(g: Seq<Seq<u32>>, w: int, ink: bool)
    requires
        has_pixel(g, w, ink),
    ensures
        is_extent(g, w, ink, extent(g, w, ink)),
{
    let q = choose|q: (int, int)| #[trigger] pixel_is(g, w, q, ink);
    assert(line_has(g, w, ink, true, q.0));
    assert(line_has(g, w, ink, false, q.1));
    let x0 = first_line(g, w, ink, true, 0, w);
    let x1 = last_line(g, w, ink, true, 0, w);
    let y0 = first_line(g, w, ink, false, 0, g.len() as int);
    let y1 = last_line(g, w, ink, false, 0, g.len() as int);
    lemma_extent_from_sides(g, w, ink, x0, x1, y0, y1);
}

/// `q` comes before the scan position `(x, y)` in row-major order.
pub open spec fn before(q: (int, int), x: int, y: int) -> bool {
    q.1 < y || (q.1 == y && q.0 < x)
}

/// Scans the window of width `m[0].len()` and returns the extent
/// `(x_min, y_min, x_max, y_max)` of its ink (`ink`) or background (`!ink`)
/// pixels, or `None` when there is no such pixel.
pub fn find_extent(m: &Vec<Vec<u32>>, ink: bool) -> (r: Option<(usize, usize, usize, usize)>)
    requires
        m@.len() > 0,
        rows_at_least(grid(*m), m@[0]@.len() as int),
    ensures
        ({
            let g = grid(*m);
            let w = m@[0]@.len() as int;
            &&& r is None <==> !has_pixel(g, w, ink)
            &&& r matches Some(e) ==> {
                &&& e.0 <= e.2 < w
                &&& e.1 <= e.3 < g.len()
                &&& (e.0 as int, e.1 as int, e.2 as int, e.3 as int) == extent(g, w, ink)
                &&& is_extent(g, w, ink, extent(g, w, ink))
            }
        }),
{
    let ghost g = grid(*m);
    let height = m.len();
    let width = m[0].len();
    let ghost w = width as int;
    let mut x_min = width;
    let mut x_max: usize = 0;
    let mut y_min = height;
    let mut y_max: usize = 0;
    let mut found = false;
    let mut y: usize = 0;
    while y < height
        invariant
            g == grid(*m),
            height == g.len(),
            w == width,
            rows_at_least(g, w),
            y <= height,
            found <==> exists|q: (int, int)| #[trigger] pixel_is(g, w, q, ink) && q.1 < y,
            found ==> forall|q: (int, int)|
                #[trigger] pixel_is(g, w, q, ink) && q.1 < y ==> x_min <= q.0 <= x_max && y_min <= q.1
                    <= y_max,
            found ==> exists|q: (int, int)| #[trigger] pixel_is(g, w, q, ink) && q.1 < y && q.0 == x_min,
            found ==> exists|q: (int, int)| #[trigger] pixel_is(g, w, q, ink) && q.1 < y && q.1 == y_min,
            found ==> exists|q: (int, int)| #[trigger] pixel_is(g, w, q, ink) && q.1 < y && q.0 == x_max,
            found ==> exists|q: (int, int)| #[trigger] pixel_is(g, w, q, ink) && q.1 < y && q.1 == y_max,
        decreases height - y,
    {
        let row = &m[y];
        proof {
            assert(g[y as int] == row@);
            assert(g[y as int].len() >= w);
        }
        let mut x: usize = 0;
        while x < width
            invariant
                g == grid(*m),
                height == g.len(),
                w == width,
                rows_at_least(g, w),
                y < height,
                x <= width,
                row@ == g[y as int],
                row@.len() >= width,
                found <==> exists|q: (int, int)| #[trigger] pixel_is(g, w, q, ink) && before(q, x as int, y as int),
                found ==> forall|q: (int, int)|
                    #[trigger] pixel_is(g, w, q, ink) && before(q, x as int, y as int) ==> x_min <= q.0 <= x_max
                        && y_min <= q.1 <= y_max,
                found ==> exists|q: (int, int)|
                    #[trigger] pixel_is(g, w, q, ink) && before(q, x as int, y as int) && q.0 == x_min,
                found ==> exists|q: (int, int)|
                    #[trigger] pixel_is(g, w, q, ink) && before(q, x as int, y as int) && q.1 == y_min,
                found ==> exists|q: (int, int)|
                    #[trigger] pixel_is(g, w, q, ink) && before(q, x as int, y as int) && q.0 == x_max,
                found ==> exists|q: (int, int)|
                    #[trigger] pixel_is(g, w, q, ink) && before(q, x as int, y as int) && q.1 == y_max,
            decreases width - x,
        {
            let ghost p = (x as int, y as int);
            let ghost old_found = found;
            let ghost ox = (x_min, y_min, x_max, y_max);
            if (row[x] != 0) == ink {
                if !found || x < x_min {
                    x_min = x;
                }
                if !found || x > x_max {
                    x_max = x;
                }
                if !found || y < y_min {
                    y_min = y;
                }
                if !found || y > y_max {
                    y_max = y;
                }
                found = true;
            }
            proof {
                assert(pixel_is(g, w, p, ink) == ((row@[x as int] != 0) == ink));
                assert forall|q: (int, int)| #[trigger] pixel_is(g, w, q, ink) implies before(q, x + 1, y as int) == (before(q, x as int, y as int) || q == p) by {}
                if pixel_is(g, w, p, ink) {
                    if old_found {
                        let a = choose|q: (int, int)| #[trigger] pixel_is(g, w, q, ink) && before(q, x as int, y as int) && q.0 == ox.0;
                        let b = choose|q: (int, int)| #[trigger] pixel_is(g, w, q, ink) && before(q, x as int, y as int) && q.1 == ox.1;
                        let c = choose|q: (int, int)| #[trigger] pixel_is(g, w, q, ink) && before(q, x as int, y as int) && q.0 == ox.2;
                        let d = choose|q: (int, int)| #[trigger] pixel_is(g, w, q, ink) && before(q, x as int, y as int) && q.1 == ox.3;
                        assert(before(a, x + 1, y as int) && before(b, x + 1, y as int));
                        assert(before(c, x + 1, y as int) && before(d, x + 1, y as int));
                    }
                    assert(before(p, x + 1, y as int));
                }
            }
            x = x + 1;
        }
        proof {
            assert forall|q: (int, int)| #[trigger] pixel_is(g, w, q, ink) implies before(q, w, y as int) == (q.1 < y + 1) by {}
        }
        y = y + 1;
    }
    if !found {
        None
    } else {
        proof {
            assert forall|q: (int, int)| #[trigger] pixel_is(g, w, q, ink) implies q.1 < y by {}
            let e = (x_min as int, y_min as int, x_max as int, y_max as int);
            assert(is_extent(g, w, ink, e));
            lemma_extent_unique(g, w, ink, e, extent(g, w, ink));
        }
        Some((x_min, y_min, x_max, y_max))
    }
}

} // verus!
