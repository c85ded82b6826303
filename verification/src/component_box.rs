//! Every lit pixel has the bounding box of its 4-connected component (the
//! sides are the first and last columns and rows that the component meets),
//! and the boxes listed for a grid are such bounding boxes.
use vstd::prelude::*;
use crate::flood::is_component_box;
use crate::grid::{connected, lemma_connected_lit, lemma_connected_refl, lit};
use crate::midsized_letter::{
    component_box, component_boxes, digit_like, grid_boxes, is_anchor, row_boxes, select_digits,
    working_grid,
};
use crate::position_sort::{lemma_sorted_from_input, stable_position_sort_of};

verus! {

/// Some member of the component of `s` lies in column `k` (`col`) or in row
/// `k` (`!col`).
pub open spec fn component_line_has(g: Seq<Seq<u32>>, w: int, s: (int, int), col: bool, k: int) -> bool {
    if col {
        exists|y: int| #[trigger] connected(g, w, s, (k, y))
    } else {
        exists|x: int| #[trigger] connected(g, w, s, (x, k))
    }
}

proof fn first_component_line(g: Seq<Seq<u32>>, w: int, s: (int, int), col: bool, lo: int, hi: int) -> (m: int)
    requires
        exists|k: int| lo <= k < hi && #[trigger] component_line_has(g, w, s, col, k),
    ensures
        lo <= m < hi,
        component_line_has(g, w, s, col, m),
        forall|k: int| lo <= k < m ==> !#[trigger] component_line_has(g, w, s, col, k),
    decreases hi - lo,
{
    if component_line_has(g, w, s, col, lo) {
        lo
    } else {
        let k0 = choose|k: int| lo <= k < hi && #[trigger] component_line_has(g, w, s, col, k);
        assert(lo + 1 <= k0 < hi);
        first_component_line(g, w, s, col, lo + 1, hi)
    }
}

proof fn last_component_line(g: Seq<Seq<u32>>, w: int, s: (int, int), col: bool, lo: int, hi: int) -> (m: int)
    requires
        exists|k: int| lo <= k < hi && #[trigger] component_line_has(g, w, s, col, k),
    ensures
        lo <= m < hi,
        component_line_has(g, w, s, col, m),
        forall|k: int| m < k < hi ==> !#[trigger] component_line_has(g, w, s, col, k),
    decreases hi - lo,
{
    if component_line_has(g, w, s, col, hi - 1) {
        hi - 1
    } else {
        let k0 = choose|k: int| lo <= k < hi && #[trigger] component_line_has(g, w, s, col, k);
        assert(lo <= k0 < hi - 1);
        last_component_line(g, w, s, col, lo, hi - 1)
    }
}

/// Every lit pixel has the bounding box of its component.
pub proof fn lemma_component_box_exists(g: Seq<Seq<u32>>, w: int, s: (int, int))
    requires
        lit(g, w, s),
    ensures
        exists|b: (int, int, int, int)| is_component_box(g, w, s, b),
{
    lemma_connected_refl(g, w, s);
    assert(component_line_has(g, w, s, true, s.0));
    assert(component_line_has(g, w, s, false, s.1));
    let x0 = first_component_line(g, w, s, true, 0, w);
    let x1 = last_component_line(g, w, s, true, 0, w);
    let y0 = first_component_line(g, w, s, false, 0, g.len() as int);
    let y1 = last_component_line(g, w, s, false, 0, g.len() as int);
    let b = (x0, y0, x1, y1);
    assert forall|q: (int, int)| #[trigger] connected(g, w, s, q) implies b.0 <= q.0 <= b.2 && b.1
        <= q.1 <= b.3 by {
        lemma_connected_lit(g, w, s, q);
        assert(component_line_has(g, w, s, true, q.0));
        assert(component_line_has(g, w, s, false, q.1));
    }
    let a = choose|y: int| #[trigger] connected(g, w, s, (x0, y));
    let c = choose|x: int| #[trigger] connected(g, w, s, (x, y0));
    let d = choose|y: int| #[trigger] connected(g, w, s, (x1, y));
    let e = choose|x: int| #[trigger] connected(g, w, s, (x, y1));
    assert(connected(g, w, s, (x0, a)) && connected(g, w, s, (c, y0)));
    assert(connected(g, w, s, (x1, d)) && connected(g, w, s, (e, y1)));
    assert(is_component_box(g, w, s, b));
}

/// The box `component_box` gives a lit pixel is the bounding box of its
/// component.
pub proof fn lemma_component_box_bounds(g: Seq<Seq<u32>>, w: int, s: (int, int))
    requires
        lit(g, w, s),
    ensures
        is_component_box(g, w, s, component_box(g, w, s)),
{
    lemma_component_box_exists(g, w, s);
}

proof fn lemma_row_boxes_bound(g: Seq<Seq<u32>>, w: int, y: int, x: int, i: int)
    requires
        0 <= i < row_boxes(g, w, y, x).len(),
    ensures
        exists|p: (int, int)|
            is_anchor(g, w, p) && #[trigger] is_component_box(g, w, p, row_boxes(g, w, y, x)[i]),
    decreases x,
{
    if x > 0 {
        let prev = row_boxes(g, w, y, x - 1);
        if is_anchor(g, w, (x - 1, y)) && i == prev.len() {
            lemma_component_box_bounds(g, w, (x - 1, y));
            assert(is_component_box(g, w, (x - 1, y), row_boxes(g, w, y, x)[i]));
        } else {
            lemma_row_boxes_bound(g, w, y, x - 1, i);
            assert(row_boxes(g, w, y, x)[i] == prev[i]);
        }
    }
}

proof fn lemma_grid_boxes_bound(g: Seq<Seq<u32>>, w: int, y: int, i: int)
    requires
        0 <= i < grid_boxes(g, w, y).len(),
    ensures
        exists|p: (int, int)|
            is_anchor(g, w, p) && #[trigger] is_component_box(g, w, p, grid_boxes(g, w, y)[i]),
    decreases y,
{
    if y > 0 {
        let prev = grid_boxes(g, w, y - 1);
        if i < prev.len() {
            lemma_grid_boxes_bound(g, w, y - 1, i);
            assert(grid_boxes(g, w, y)[i] == prev[i]);
        } else {
            lemma_row_boxes_bound(g, w, y - 1, w, i - prev.len());
            assert(grid_boxes(g, w, y)[i] == row_boxes(g, w, y - 1, w)[i - prev.len()]);
        }
    }
}

/// Each box of `component_boxes` is the bounding box of the component of a
/// pixel that comes first in scan order within its component.
pub proof fn law_component_boxes_bound_components(g: Seq<Seq<u32>>, i: int)
    requires
        g.len() > 0,
        0 <= i < component_boxes(g).len(),
    ensures
        exists|p: (int, int)|
            is_anchor(g, g[0].len() as int, p) && #[trigger] is_component_box(
                g,
                g[0].len() as int,
                p,
                component_boxes(g)[i],
            ),
{
    lemma_grid_boxes_bound(g, g[0].len() as int, g.len() as int, i);
}

proof fn lemma_selected_from(s: Seq<(int, int, int, int)>, aw: int, ah: int, j: int)
    requires
        0 <= j < select_digits(s, aw, ah).len(),
    ensures
        digit_like(select_digits(s, aw, ah)[j], aw, ah),
        s.contains(select_digits(s, aw, ah)[j]),
    decreases s.len(),
{
    if s.len() > 0 {
        let prev = select_digits(s.drop_last(), aw, ah);
        if digit_like(s.last(), aw, ah) && j == prev.len() {
            assert(s[s.len() - 1] == s.last());
        } else {
            lemma_selected_from(s.drop_last(), aw, ah, j);
            assert(select_digits(s, aw, ah)[j] == prev[j]);
            let k = choose|k: int| 0 <= k < s.drop_last().len() && s.drop_last()[k] == prev[j];
            assert(s[k] == prev[j]);
        }
    }
}

/// Every box that `find_digit` can return for an image passes the digit
/// tests and is the bounding box of a 4-connected component of its ink.
pub proof fn law_found_digits_are_components(
    g: Seq<Seq<u32>>,
    aw: int,
    ah: int,
    out: Seq<(int, int, int, int)>,
    i: int,
)
    requires
        g.len() > 0,
        g[0].len() > 0,
        stable_position_sort_of(out, select_digits(component_boxes(working_grid(g)), aw, ah)),
        0 <= i < out.len(),
    ensures
        digit_like(out[i], aw, ah),
        exists|p: (int, int)|
            is_anchor(working_grid(g), g[0].len() as int, p) && #[trigger] is_component_box(
                working_grid(g),
                g[0].len() as int,
                p,
                out[i],
            ),
{
    let wg = working_grid(g);
    let all = component_boxes(wg);
    let sel = select_digits(all, aw, ah);
    assert(wg.len() == g.len());
    assert(wg[0].len() == g[0].len());
    lemma_sorted_from_input(out, sel, i);
    let j = choose|j: int| 0 <= j < sel.len() && sel[j] == out[i];
    lemma_selected_from(all, aw, ah, j);
    let k = choose|k: int| 0 <= k < all.len() && all[k] == sel[j];
    law_component_boxes_bound_components(wg, k);
}

} // verus!
