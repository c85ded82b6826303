//! Segmentation of a binary image into its 4-connected components: the
//! average size of the components and the boxes of those shaped like digits.
use vstd::prelude::*;
use crate::flood::{
    flood_fill_bounding_box, is_component_box, lemma_component_box_unique, without_component,
};
use crate::grid::{
    connected, grid, lemma_connected_lit, lemma_connected_mono, lemma_connected_symm,
    lemma_connected_trans, lemma_connected_transfer, lit, rows_at_least,
};
use crate::matrix::copy_matrix;
use crate::position_sort::{boxes_view, sort_by_position, stable_position_sort_of};

verus! {

/// Average width and height of the connected components of an image.
#[derive(Debug, Clone, Copy)]
pub struct ComponentSize {
    pub avg_width: usize,
    pub avg_height: usize,
}

/// Black (zero) pixels become one, every other pixel becomes zero.
pub open spec fn inverted(g: Seq<Seq<u32>>) -> Seq<Seq<u32>> {
    Seq::new(
        g.len(),
        |y: int| Seq::new(g[y].len(), |x: int| if g[y][x] == 0 { 1u32 } else { 0u32 }),
    )
}

/// The image in which the components are searched: the ink is taken to be
/// the colour that the top-left pixel does not have.
pub open spec fn working_grid(g: Seq<Seq<u32>>) -> Seq<Seq<u32>> {
    if g[0][0] != 0 {
        inverted(g)
    } else {
        g
    }
}

/// `r` comes before `p` in row-major scan order.
pub open spec fn scan_before(r: (int, int), p: (int, int)) -> bool {
    r.1 < p.1 || (r.1 == p.1 && r.0 < p.0)
}

/// The component of `q` holds a pixel that comes before `p` in scan order.
pub open spec fn claimed(g: Seq<Seq<u32>>, w: int, q: (int, int), p: (int, int)) -> bool {
    exists|r: (int, int)| #[trigger] connected(g, w, q, r) && scan_before(r, p)
}

/// `p` is the first pixel of its component in scan order.
pub open spec fn is_anchor(g: Seq<Seq<u32>>, w: int, p: (int, int)) -> bool {
    lit(g, w, p) && !claimed(g, w, p, p)
}

/// The bounding box `(min_x, min_y, max_x, max_y)` of the component of `p`.
pub open spec fn component_box(g: Seq<Seq<u32>>, w: int, p: (int, int)) -> (int, int, int, int) {
    choose|b: (int, int, int, int)| is_component_box(g, w, p, b)
}

/// Boxes of the components whose first pixel lies in row `y` before column `x`.
pub open spec fn row_boxes(g: Seq<Seq<u32>>, w: int, y: int, x: int) -> Seq<(int, int, int, int)>
    decreases x,
{
    if x <= 0 {
        seq![]
    } else if is_anchor(g, w, (x - 1, y)) {
        row_boxes(g, w, y, x - 1).push(component_box(g, w, (x - 1, y)))
    } else {
        row_boxes(g, w, y, x - 1)
    }
}

/// Boxes of the components whose first pixel lies in a row before `y`.
pub open spec fn grid_boxes(g: Seq<Seq<u32>>, w: int, y: int) -> Seq<(int, int, int, int)>
    decreases y,
{
    if y <= 0 {
        seq![]
    } else {
        grid_boxes(g, w, y - 1) + row_boxes(g, w, y - 1, w)
    }
}

/// The boxes of all components of a grid, in the scan order of their first
/// pixels.
pub open spec fn component_boxes(g: Seq<Seq<u32>>) -> Seq<(int, int, int, int)> {
    grid_boxes(g, g[0].len() as int, g.len() as int)
}

pub open spec fn box_width(b: (int, int, int, int)) -> int {
    b.2 - b.0 + 1
}

pub open spec fn box_height(b: (int, int, int, int)) -> int {
    b.3 - b.1 + 1
}

pub open spec fn sum_widths(s: Seq<(int, int, int, int)>) -> int
    decreases s.len(),
{
    if s.len() == 0 {
        0
    } else {
        sum_widths(s.drop_last()) + box_width(s.last())
    }
}

pub open spec fn sum_heights(s: Seq<(int, int, int, int)>) -> int
    decreases s.len(),
{
    if s.len() == 0 {
        0
    } else {
        sum_heights(s.drop_last()) + box_height(s.last())
    }
}

/// The grid once the scan has reached `p`: every component with a pixel
/// before `p` is cleared.
pub open spec fn scanned_grid(g: Seq<Seq<u32>>, w: int, p: (int, int)) -> Seq<Seq<u32>> {
    Seq::new(
        g.len(),
        |yy: int|
            Seq::new(g[yy].len(), |xx: int| if claimed(g, w, (xx, yy), p) { 0u32 } else { g[yy][xx] }),
    )
}

proof fn lemma_scan_start(g: Seq<Seq<u32>>, w: int)
    ensures
        scanned_grid(g, w, (0, 0)) == g,
{
    assert forall|q: (int, int)| !claimed(g, w, q, (0, 0)) by {
        if claimed(g, w, q, (0, 0)) {
            let r = choose|r: (int, int)| #[trigger] connected(g, w, q, r) && scan_before(r, (0, 0));
            lemma_connected_lit(g, w, q, r);
        }
    }
    assert forall|y: int| 0 <= y < g.len() implies #[trigger] scanned_grid(g, w, (0, 0))[y] =~= g[y] by {}
    assert(scanned_grid(g, w, (0, 0)) =~= g);
}

proof fn lemma_scan_next_row(g: Seq<Seq<u32>>, w: int, y: int)
    ensures
        scanned_grid(g, w, (w, y)) == scanned_grid(g, w, (0, y + 1)),
{
    assert forall|q: (int, int)| claimed(g, w, q, (w, y)) == claimed(g, w, q, (0, y + 1)) by {
        if claimed(g, w, q, (w, y)) {
            let r = choose|r: (int, int)| #[trigger] connected(g, w, q, r) && scan_before(r, (w, y));
            assert(scan_before(r, (0, y + 1)));
        }
        if claimed(g, w, q, (0, y + 1)) {
            let r = choose|r: (int, int)|
                #[trigger] connected(g, w, q, r) && scan_before(r, (0, y + 1));
            lemma_connected_lit(g, w, q, r);
            assert(scan_before(r, (w, y)));
        }
    }
    assert forall|yy: int| 0 <= yy < g.len() implies #[trigger] scanned_grid(g, w, (w, y))[yy]
        =~= scanned_grid(g, w, (0, y + 1))[yy] by {}
    assert(scanned_grid(g, w, (w, y)) =~= scanned_grid(g, w, (0, y + 1)));
}

/// One step of the scan at `p`: the pixel is still lit exactly when it is the
/// first pixel of its component; then the flood fill clears that component,
/// whose members are the same in the scanned grid as in the grid before the scan;
/// otherwise nothing changes.
proof fn lemma_scan_step(g: Seq<Seq<u32>>, w: int, x: int, y: int)
    requires
        0 <= x < w,
        0 <= y < g.len(),
        rows_at_least(g, w),
    ensures
        ({
            let p = (x, y);
            let cur = scanned_grid(g, w, p);
            &&& (cur[y][x] != 0) == is_anchor(g, w, p)
            &&& !is_anchor(g, w, p) ==> scanned_grid(g, w, (x + 1, y)) == cur
            &&& is_anchor(g, w, p) ==> without_component(cur, w, p) == scanned_grid(
                g,
                w,
                (x + 1, y),
            )
            &&& forall|b: (int, int, int, int)|
                is_anchor(g, w, p) && #[trigger] is_component_box(cur, w, p, b) ==> b
                    == component_box(g, w, p)
        }),
{
    let p = (x, y);
    let cur = scanned_grid(g, w, p);
    let nxt = scanned_grid(g, w, (x + 1, y));
    assert(g[y].len() >= w);
    assert(cur[y][x] == if claimed(g, w, p, p) { 0u32 } else { g[y][x] });
    // claimed at the next position: claimed here, or connected to p
    assert forall|q: (int, int)|
        #[trigger] claimed(g, w, q, (x + 1, y)) == (claimed(g, w, q, p) || connected(
            g,
            w,
            q,
            p,
        )) by {
        if claimed(g, w, q, (x + 1, y)) {
            let r = choose|r: (int, int)|
                #[trigger] connected(g, w, q, r) && scan_before(r, (x + 1, y));
            if !scan_before(r, p) {
                assert(r == p);
            }
        }
        if connected(g, w, q, p) {
            assert(scan_before(p, (x + 1, y)));
        }
        if claimed(g, w, q, p) {
            let r = choose|r: (int, int)| #[trigger] connected(g, w, q, r) && scan_before(r, p);
            assert(scan_before(r, (x + 1, y)));
        }
    }
    if !is_anchor(g, w, p) {
        assert forall|q: (int, int)| connected(g, w, q, p) implies claimed(g, w, q, p) by {
            lemma_connected_lit(g, w, q, p);
            let r = choose|r: (int, int)| #[trigger] connected(g, w, p, r) && scan_before(r, p);
            lemma_connected_trans(g, w, q, p, r);
        }
        assert forall|yy: int| 0 <= yy < g.len() implies #[trigger] nxt[yy] =~= cur[yy] by {
            assert forall|xx: int| 0 <= xx < g[yy].len() implies nxt[yy][xx] == cur[yy][xx] by {
                assert(claimed(g, w, (xx, yy), (x + 1, y)) == claimed(g, w, (xx, yy), p));
            }
        }
        assert(nxt =~= cur);
    } else {
        // members of the component of p are not claimed before p
        assert forall|q: (int, int)| #[trigger] connected(g, w, p, q) implies lit(cur, w, q) by {
            lemma_connected_lit(g, w, p, q);
            if claimed(g, w, q, p) {
                let r = choose|r: (int, int)| #[trigger] connected(g, w, q, r) && scan_before(r, p);
                lemma_connected_trans(g, w, p, q, r);
            }
        }
        assert forall|yy: int| 0 <= yy < g.len() implies #[trigger] cur[yy].len() == g[yy].len() by {}
        assert forall|q: (int, int)| #[trigger] lit(cur, w, q) implies lit(g, w, q) by {}
        assert forall|q: (int, int)| #[trigger]
            connected(cur, w, p, q) == connected(g, w, p, q) by {
            if connected(g, w, p, q) {
                lemma_connected_transfer(g, cur, w, p, q);
            }
            if connected(cur, w, p, q) {
                lemma_connected_mono(cur, g, w, p, q);
            }
        }
        let wc = without_component(cur, w, p);
        assert forall|yy: int| 0 <= yy < g.len() implies #[trigger] wc[yy] =~= nxt[yy] by {
            assert forall|xx: int| 0 <= xx < g[yy].len() implies wc[yy][xx] == nxt[yy][xx] by {
                let q = (xx, yy);
                assert(claimed(g, w, q, (x + 1, y)) == (claimed(g, w, q, p) || connected(g, w, q, p)));
                if connected(g, w, q, p) {
                    lemma_connected_symm(g, w, q, p);
                }
                if connected(g, w, p, q) {
                    lemma_connected_symm(g, w, p, q);
                }
            }
        }
        assert(wc =~= nxt);
        assert forall|b: (int, int, int, int)| #[trigger]
            is_component_box(cur, w, p, b) implies b == component_box(g, w, p) by {
            let q1 = choose|q: (int, int)| #[trigger] connected(cur, w, p, q) && q.0 == b.0;
            let q2 = choose|q: (int, int)| #[trigger] connected(cur, w, p, q) && q.1 == b.1;
            let q3 = choose|q: (int, int)| #[trigger] connected(cur, w, p, q) && q.0 == b.2;
            let q4 = choose|q: (int, int)| #[trigger] connected(cur, w, p, q) && q.1 == b.3;
            assert(connected(g, w, p, q1) && connected(g, w, p, q2));
            assert(connected(g, w, p, q3) && connected(g, w, p, q4));
            assert forall|q: (int, int)| #[trigger] connected(g, w, p, q) implies b.0 <= q.0 <= b.2
                && b.1 <= q.1 <= b.3 by {
                assert(connected(cur, w, p, q));
            }
            assert(is_component_box(g, w, p, b));
            lemma_component_box_unique(g, w, p, b, component_box(g, w, p));
        }
    }
}


proof fn lemma_boxes_push(
    acc: Seq<(int, int, int, int)>,
    b: (int, int, int, int),
)
    ensures
        acc.push(b).drop_last() == acc,
        sum_widths(acc.push(b)) == sum_widths(acc) + box_width(b),
        sum_heights(acc.push(b)) == sum_heights(acc) + box_height(b),
{
    assert(acc.push(b).drop_last() =~= acc);
}

/// Black (zero) pixels become one and every other pixel zero.
fn invert_binary_image(matrix: &Vec<Vec<u32>>) -> (r: Vec<Vec<u32>>)
    ensures
        grid(r) == inverted(grid(*matrix)),
{
    let mut out: Vec<Vec<u32>> = Vec::with_capacity(matrix.len());
    let mut y: usize = 0;
    while y < matrix.len()
        invariant
            y <= matrix@.len(),
            grid(out) == inverted(grid(*matrix)).take(y as int),
        decreases matrix@.len() - y,
    {
        let src = &matrix[y];
        let mut row: Vec<u32> = Vec::with_capacity(src.len());
        let mut x: usize = 0;
        while x < src.len()
            invariant
                x <= src@.len(),
                y < matrix@.len(),
                src == matrix@[y as int],
                grid(*matrix)[y as int] == src@,
                row@ == inverted(grid(*matrix))[y as int].take(x as int),
            decreases src@.len() - x,
        {
            let pixel = src[x];
            row.push(if pixel == 0 { 1 } else { 0 });
            x = x + 1;
            assert(row@ =~= inverted(grid(*matrix))[y as int].take(x as int));
        }
        assert(row@ =~= inverted(grid(*matrix))[y as int]);
        let ghost before = grid(out);
        out.push(row);
        assert(grid(out) =~= before.push(row@));
        y = y + 1;
        assert(grid(out) =~= inverted(grid(*matrix)).take(y as int));
    }
    assert(inverted(grid(*matrix)).take(matrix@.len() as int) =~= inverted(grid(*matrix)));
    out
}

/// The working copy of the image in which the components are searched.
fn working_copy(binary_image: &Vec<Vec<u32>>) -> (r: Vec<Vec<u32>>)
    requires
        binary_image@.len() > 0,
        binary_image@[0]@.len() > 0,
    ensures
        grid(r) == working_grid(grid(*binary_image)),
{
    if binary_image[0][0] != 0 {
        invert_binary_image(binary_image)
    } else {
        copy_matrix(binary_image)
    }
}

/// Returns the average width and height of the 4-connected components of
/// ink in the image, where the ink is the colour that the top-left pixel
/// does not have.
pub fn midsized_digit(binary_image: &Vec<Vec<u32>>) -> (r: Option<ComponentSize>)
    requires
        binary_image@.len() > 0 ==> rows_at_least(
            grid(*binary_image),
            binary_image@[0]@.len() as int,
        ),
        binary_image@.len() > 0 ==> binary_image@.len() * binary_image@[0]@.len() <= usize::MAX,
    ensures
        binary_image@.len() == 0 || binary_image@[0]@.len() == 0 ==> r is None,
        binary_image@.len() > 0 && binary_image@[0]@.len() > 0 ==> ({
            let bs = component_boxes(working_grid(grid(*binary_image)));
            &&& r is None <==> bs.len() == 0
            &&& r matches Some(c) ==> c.avg_width == sum_widths(bs) / (bs.len() as int)
                && c.avg_height == sum_heights(bs) / (bs.len() as int)
        }),
{
    if binary_image.len() == 0 || binary_image[0].len() == 0 {
        return None;
    }
    let mut pixels = working_copy(binary_image);
    let ghost g0 = working_grid(grid(*binary_image));
    proof {
        assert(grid(pixels).len() == pixels@.len());
    }
    let height = pixels.len();
    let width = pixels[0].len();
    let ghost w = width as int;
    proof {
        assert(grid(pixels)[0] == pixels@[0]@);
        assert forall|yy: int| 0 <= yy < g0.len() implies #[trigger] g0[yy].len() >= w by {
            assert(grid(*binary_image)[yy].len() >= grid(*binary_image)[0].len());
        }
        lemma_scan_start(g0, w);
    }
    let mut count: u128 = 0;
    let mut total_width: u128 = 0;
    let mut total_height: u128 = 0;
    let ghost mut acc: Seq<(int, int, int, int)> = seq![];
    let mut y: usize = 0;
    while y < height
        invariant
            y <= height,
            height == g0.len(),
            width == g0[0].len(),
            w == width,
            width > 0,
            rows_at_least(g0, w),
            height * width <= usize::MAX,
            grid(pixels) == scanned_grid(g0, w, (0, y as int)),
            acc == grid_boxes(g0, w, y as int),
            count == acc.len(),
            total_width == sum_widths(acc),
            total_height == sum_heights(acc),
            count <= y * width,
            total_width <= count * width,
            total_height <= count * height,
        decreases height - y,
    {
        let mut x: usize = 0;
        while x < width
            invariant
                x <= width,
                y < height,
                height == g0.len(),
                width == g0[0].len(),
                w == width,
                width > 0,
                rows_at_least(g0, w),
                height * width <= usize::MAX,
                grid(pixels) == scanned_grid(g0, w, (x as int, y as int)),
                acc == grid_boxes(g0, w, y as int) + row_boxes(g0, w, y as int, x as int),
                count == acc.len(),
                total_width == sum_widths(acc),
                total_height == sum_heights(acc),
                count <= y * width + x,
                total_width <= count * width,
                total_height <= count * height,
            decreases width - x,
        {
            let ghost p = (x as int, y as int);
            let ghost cur = grid(pixels);
            proof {
                assert(cur.len() == pixels@.len());
                lemma_scan_step(g0, w, x as int, y as int);
                assert(cur[y as int] == pixels@[y as int]@);
                assert(g0[y as int].len() >= w);
            }
            if pixels[y][x] != 0 {
                proof {
                    assert(cur[0] == pixels@[0]@);
                    assert forall|yy: int| 0 <= yy < cur.len() implies #[trigger] cur[yy].len() >= w by {
                        assert(g0[yy].len() >= w);
                    }
                }
                let found = flood_fill_bounding_box(&mut pixels, x, y);
                if let Some(bbox) = found {
                    let ghost b = (
                        bbox.min_x as int,
                        bbox.min_y as int,
                        bbox.max_x as int,
                        bbox.max_y as int,
                    );
                    proof {
                        assert(is_component_box(cur, w, p, b));
                        let q3 = choose|q: (int, int)| #[trigger] connected(cur, w, p, q) && q.0 == b.2;
                        let q4 = choose|q: (int, int)| #[trigger] connected(cur, w, p, q) && q.1 == b.3;
                        lemma_connected_lit(cur, w, p, q3);
                        lemma_connected_lit(cur, w, p, q4);
                        assert(b == component_box(g0, w, p));
                        lemma_boxes_push(acc, b);
                        assert(count + 1 <= height * width) by (nonlinear_arith)
                            requires
                                count <= y * width + x,
                                x < width,
                                y < height,
                        ;
                        assert((count + 1) * width <= 0xffff_ffff_ffff_ffff_ffff_ffff_ffff_ffff) by (nonlinear_arith)
                            requires
                                count + 1 <= 0xffff_ffff_ffff_ffff,
                                width <= 0xffff_ffff_ffff_ffff,
                        ;
                        assert((count + 1) * height <= 0xffff_ffff_ffff_ffff_ffff_ffff_ffff_ffff) by (nonlinear_arith)
                            requires
                                count + 1 <= 0xffff_ffff_ffff_ffff,
                                height <= 0xffff_ffff_ffff_ffff,
                        ;
                        assert((count + 1) * width == count * width + width) by (nonlinear_arith);
                        assert((count + 1) * height == count * height + height) by (nonlinear_arith);
                    }
                    let component_width = (bbox.max_x - bbox.min_x + 1) as u128;
                    let component_height = (bbox.max_y - bbox.min_y + 1) as u128;
                    total_width = total_width + component_width;
                    total_height = total_height + component_height;
                    count = count + 1;
                    proof {
                        acc = acc.push(b);
                        assert(grid_boxes(g0, w, y as int) + row_boxes(g0, w, y as int, x + 1)
                            =~= acc);
                    }
                }
            }
            x = x + 1;
        }
        proof {
            assert(count <= (y + 1) * width) by (nonlinear_arith)
                requires
                    count <= y * width + width,
            ;
            lemma_scan_next_row(g0, w, y as int);
            assert(grid_boxes(g0, w, y + 1) == grid_boxes(g0, w, y as int) + row_boxes(g0, w, y as int, w));
        }
        y = y + 1;
    }
    if count > 0 {
        proof {
            assert(total_width / count <= width) by (nonlinear_arith)
                requires
                    total_width <= count * width,
                    count > 0,
            ;
            assert(total_height / count <= height) by (nonlinear_arith)
                requires
                    total_height <= count * height,
                    count > 0,
            ;
        }
        Some(ComponentSize {
            avg_width: (total_width / count) as usize,
            avg_height: (total_height / count) as usize,
        })
    } else {
        None
    }
}


/// A component box that passes the digit tests against the average size
/// `(aw, ah)`: at least a quarter of the average width, at least 65% of the
/// average height, at least a fifth of the average area, and a height to
/// width ratio strictly between 1/5 and 5.
pub open spec fn digit_like(b: (int, int, int, int), aw: int, ah: int) -> bool {
    let cw = box_width(b);
    let ch = box_height(b);
    &&& 4 * cw >= aw
    &&& 20 * ch >= 13 * ah
    &&& 5 * (cw * ch) >= aw * ah
    &&& 5 * ch > cw
    &&& ch < 5 * cw
}

/// The boxes of `s` that pass the digit tests, in their order in `s`.
pub open spec fn select_digits(s: Seq<(int, int, int, int)>, aw: int, ah: int) -> Seq<
    (int, int, int, int),
>
    decreases s.len(),
{
    if s.len() == 0 {
        seq![]
    } else if digit_like(s.last(), aw, ah) {
        select_digits(s.drop_last(), aw, ah).push(s.last())
    } else {
        select_digits(s.drop_last(), aw, ah)
    }
}

/// Locates the digits of the image: the bounding boxes
/// `(min_x, min_y, max_x, max_y)` of the components that pass the digit tests
/// against the given average size, ordered by top edge and then by left edge;
/// `None` when there is none.
pub fn find_digit(binary_image: &Vec<Vec<u32>>, avg_width: usize, avg_height: usize) -> (r:
    Option<Vec<(usize, usize, usize, usize)>>)
    requires
        binary_image@.len() > 0 ==> rows_at_least(
            grid(*binary_image),
            binary_image@[0]@.len() as int,
        ),
        binary_image@.len() > 0 ==> binary_image@.len() * binary_image@[0]@.len() <= usize::MAX,
        avg_width * avg_height <= usize::MAX,
    ensures
        binary_image@.len() == 0 || binary_image@[0]@.len() == 0 ==> r is None,
        binary_image@.len() > 0 && binary_image@[0]@.len() > 0 ==> ({
            let ds = select_digits(
                component_boxes(working_grid(grid(*binary_image))),
                avg_width as int,
                avg_height as int,
            );
            &&& r is None <==> ds.len() == 0
            &&& r matches Some(v) ==> stable_position_sort_of(boxes_view(v@), ds)
        }),
{
    if binary_image.len() == 0 || binary_image[0].len() == 0 {
        return None;
    }
    let mut pixels = working_copy(binary_image);
    let ghost g0 = working_grid(grid(*binary_image));
    let ghost aw = avg_width as int;
    let ghost ah = avg_height as int;
    proof {
        assert(grid(pixels).len() == pixels@.len());
    }
    let height = pixels.len();
    let width = pixels[0].len();
    let ghost w = width as int;
    proof {
        assert(grid(pixels)[0] == pixels@[0]@);
        assert forall|yy: int| 0 <= yy < g0.len() implies #[trigger] g0[yy].len() >= w by {
            assert(grid(*binary_image)[yy].len() >= grid(*binary_image)[0].len());
        }
        lemma_scan_start(g0, w);
        assert(boxes_view(Seq::<(usize, usize, usize, usize)>::empty()) =~= Seq::<(int, int, int, int)>::empty());
    }
    let min_area: u128 = avg_width as u128 * avg_height as u128;
    let mut digits: Vec<(usize, usize, usize, usize)> = Vec::new();
    let ghost mut acc: Seq<(int, int, int, int)> = seq![];
    let mut y: usize = 0;
    while y < height
        invariant
            y <= height,
            height == g0.len(),
            width == g0[0].len(),
            w == width,
            width > 0,
            rows_at_least(g0, w),
            height * width <= usize::MAX,
            min_area == aw * ah,
            aw == avg_width,
            ah == avg_height,
            grid(pixels) == scanned_grid(g0, w, (0, y as int)),
            acc == grid_boxes(g0, w, y as int),
            boxes_view(digits@) == select_digits(acc, aw, ah),
        decreases height - y,
    {
        let mut x: usize = 0;
        while x < width
            invariant
                x <= width,
                y < height,
                height == g0.len(),
                width == g0[0].len(),
                w == width,
                width > 0,
                rows_at_least(g0, w),
                height * width <= usize::MAX,
                min_area == aw * ah,
                aw == avg_width,
                ah == avg_height,
                grid(pixels) == scanned_grid(g0, w, (x as int, y as int)),
                acc == grid_boxes(g0, w, y as int) + row_boxes(g0, w, y as int, x as int),
                boxes_view(digits@) == select_digits(acc, aw, ah),
            decreases width - x,
        {
            let ghost p = (x as int, y as int);
            let ghost cur = grid(pixels);
            proof {
                assert(cur.len() == pixels@.len());
                lemma_scan_step(g0, w, x as int, y as int);
                assert(cur[y as int] == pixels@[y as int]@);
                assert(g0[y as int].len() >= w);
            }
            if pixels[y][x] != 0 {
                proof {
                    assert(cur[0] == pixels@[0]@);
                    assert forall|yy: int| 0 <= yy < cur.len() implies #[trigger] cur[yy].len() >= w by {
                        assert(g0[yy].len() >= w);
                    }
                }
                let found = flood_fill_bounding_box(&mut pixels, x, y);
                if let Some(bbox) = found {
                    let ghost b = (
                        bbox.min_x as int,
                        bbox.min_y as int,
                        bbox.max_x as int,
                        bbox.max_y as int,
                    );
                    proof {
                        assert(is_component_box(cur, w, p, b));
                        let q3 = choose|q: (int, int)| #[trigger] connected(cur, w, p, q) && q.0 == b.2;
                        let q4 = choose|q: (int, int)| #[trigger] connected(cur, w, p, q) && q.1 == b.3;
                        lemma_connected_lit(cur, w, p, q3);
                        lemma_connected_lit(cur, w, p, q4);
                        assert(b == component_box(g0, w, p));
                    }
                    let component_width = (bbox.max_x - bbox.min_x + 1) as u128;
                    let component_height = (bbox.max_y - bbox.min_y + 1) as u128;
                    proof {
                        assert(component_width * component_height <= height * width) by (nonlinear_arith)
                            requires
                                component_width <= width,
                                component_height <= height,
                        ;
                    }
                    let component_area = component_width * component_height;
                    let dimensions_ok = 4 * component_width >= avg_width as u128 && 20
                        * component_height >= 13 * (avg_height as u128);
                    let area_ok = 5 * component_area >= min_area;
                    let shape_ok = 5 * component_height > component_width && component_height < 5
                        * component_width;
                    let ghost digits_before = digits@;
                    if dimensions_ok && area_ok && shape_ok {
                        digits.push((bbox.min_x, bbox.min_y, bbox.max_x, bbox.max_y));
                    }
                    proof {
                        let acc2 = acc.push(b);
                        assert(acc2.drop_last() =~= acc);
                        assert(digit_like(b, aw, ah) == (dimensions_ok && area_ok && shape_ok));
                        assert(boxes_view(digits@) =~= select_digits(acc2, aw, ah));
                        acc = acc2;
                        assert(grid_boxes(g0, w, y as int) + row_boxes(g0, w, y as int, x + 1)
                            =~= acc);
                    }
                }
            }
            x = x + 1;
        }
        proof {
            lemma_scan_next_row(g0, w, y as int);
            assert(grid_boxes(g0, w, y + 1) == grid_boxes(g0, w, y as int) + row_boxes(g0, w, y as int, w));
        }
        y = y + 1;
    }
    if digits.len() == 0 {
        None
    } else {
        let sorted = sort_by_position(&digits);
        Some(sorted)
    }
}

} // verus!
