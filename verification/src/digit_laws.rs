//! What the digit search promises in terms of the image itself: every
//! component of the ink whose box is shaped like a digit (against the
//! average size) is found, and every box found is such a box.
use vstd::prelude::*;
use crate::component_box::{law_found_digits_are_components, lemma_component_box_exists};
use crate::flood::{is_component_box, lemma_component_box_unique};
use crate::grid::{connected, lemma_connected_lit, lemma_connected_symm, lemma_connected_trans, lit};
use crate::midsized_letter::{
    claimed, component_box, component_boxes, digit_like, grid_boxes, is_anchor, row_boxes,
    scan_before, select_digits, sum_heights, sum_widths, working_grid,
};
use crate::position_sort::{lemma_sorted_keeps_input, stable_position_sort_of};

verus! {

proof fn first_member_in_row(g: Seq<Seq<u32>>, w: int, p: (int, int), y: int, lo: int, hi: int) -> (x: int)
    requires
        exists|k: int| lo <= k < hi && #[trigger] connected(g, w, p, (k, y)),
    ensures
        lo <= x < hi,
        connected(g, w, p, (x, y)),
        forall|k: int| lo <= k < x ==> !#[trigger] connected(g, w, p, (k, y)),
    decreases hi - lo,
{
    if connected(g, w, p, (lo, y)) {
        lo
    } else {
        let k0 = choose|k: int| lo <= k < hi && #[trigger] connected(g, w, p, (k, y));
        assert(lo + 1 <= k0 < hi);
        first_member_in_row(g, w, p, y, lo + 1, hi)
    }
}

/// The first pixel in scan order of the component of a lit pixel: it is an
/// anchor, and the component's box is its box.
proof fn lemma_scan_first(g: Seq<Seq<u32>>, w: int, p: (int, int), b: (int, int, int, int)) -> (r: (
    int,
    int,
))
    requires
        lit(g, w, p),
        is_component_box(g, w, p, b),
    ensures
        is_anchor(g, w, r),
        is_component_box(g, w, r, b),
        0 <= r.0 < w,
        0 <= r.1 < g.len(),
{
    let q = choose|q: (int, int)| #[trigger] connected(g, w, p, q) && q.1 == b.1;
    lemma_connected_lit(g, w, p, q);
    assert(connected(g, w, p, (q.0, b.1)));
    let x0 = first_member_in_row(g, w, p, b.1, 0, w);
    let r = (x0, b.1);
    lemma_connected_lit(g, w, p, r);
    if claimed(g, w, r, r) {
        let r2 = choose|r2: (int, int)| #[trigger] connected(g, w, r, r2) && scan_before(r2, r);
        lemma_connected_trans(g, w, p, r, r2);
        lemma_connected_lit(g, w, p, r2);
        assert(b.1 <= r2.1);
        assert(connected(g, w, p, (r2.0, b.1)));
        assert(false);
    }
    lemma_connected_symm(g, w, p, r);
    assert forall|t: (int, int)| #[trigger] connected(g, w, r, t) == connected(g, w, p, t) by {
        if connected(g, w, r, t) {
            lemma_connected_trans(g, w, p, r, t);
        }
        if connected(g, w, p, t) {
            lemma_connected_trans(g, w, r, p, t);
        }
    }
    let t0 = choose|t: (int, int)| #[trigger] connected(g, w, p, t) && t.0 == b.0;
    let t1 = choose|t: (int, int)| #[trigger] connected(g, w, p, t) && t.1 == b.1;
    let t2 = choose|t: (int, int)| #[trigger] connected(g, w, p, t) && t.0 == b.2;
    let t3 = choose|t: (int, int)| #[trigger] connected(g, w, p, t) && t.1 == b.3;
    assert(connected(g, w, r, t0) && connected(g, w, r, t1));
    assert(connected(g, w, r, t2) && connected(g, w, r, t3));
    assert(is_component_box(g, w, r, b));
    r
}

proof fn lemma_row_boxes_has(g: Seq<Seq<u32>>, w: int, y: int, x: int, x1: int)
    requires
        0 <= x1 < x,
        is_anchor(g, w, (x1, y)),
    ensures
        row_boxes(g, w, y, x).contains(component_box(g, w, (x1, y))),
    decreases x,
{
    let prev = row_boxes(g, w, y, x - 1);
    let cur = row_boxes(g, w, y, x);
    if x1 == x - 1 {
        assert(cur[prev.len() as int] == component_box(g, w, (x1, y)));
    } else {
        lemma_row_boxes_has(g, w, y, x - 1, x1);
        let k = choose|k: int| 0 <= k < prev.len() && prev[k] == component_box(g, w, (x1, y));
        assert(cur[k] == prev[k]);
    }
}

proof fn lemma_grid_boxes_has(g: Seq<Seq<u32>>, w: int, y: int, r: (int, int))
    requires
        0 <= r.1 < y,
        0 <= r.0 < w,
        is_anchor(g, w, r),
    ensures
        grid_boxes(g, w, y).contains(component_box(g, w, r)),
    decreases y,
{
    let prev = grid_boxes(g, w, y - 1);
    let cur = grid_boxes(g, w, y);
    if r.1 == y - 1 {
        lemma_row_boxes_has(g, w, y - 1, w, r.0);
        let row = row_boxes(g, w, y - 1, w);
        let k = choose|k: int| 0 <= k < row.len() && row[k] == component_box(g, w, r);
        assert(cur[prev.len() + k] == row[k]);
    } else {
        lemma_grid_boxes_has(g, w, y - 1, r);
        let k = choose|k: int| 0 <= k < prev.len() && prev[k] == component_box(g, w, r);
        assert(cur[k] == prev[k]);
    }
}

proof fn lemma_select_keeps(s: Seq<(int, int, int, int)>, aw: int, ah: int, k: int)
    requires
        0 <= k < s.len(),
        digit_like(s[k], aw, ah),
    ensures
        select_digits(s, aw, ah).contains(s[k]),
    decreases s.len(),
{
    let sel = select_digits(s, aw, ah);
    if k == s.len() - 1 {
        assert(s.last() == s[k]);
        assert(sel[sel.len() - 1] == s[k]);
    } else {
        let prev = select_digits(s.drop_last(), aw, ah);
        assert(s.drop_last()[k] == s[k]);
        lemma_select_keeps(s.drop_last(), aw, ah, k);
        let i = choose|i: int| 0 <= i < prev.len() && prev[i] == s[k];
        assert(sel[i] == prev[i]);
    }
}

/// Every component of the ink whose bounding box passes the digit tests
/// against the averages `(aw, ah)` is found: its box is among the boxes
/// that `find_digit` returns. The tests: a width of at least a quarter of
/// the average width, a height of at least 65% of the average height, an
/// area of at least a fifth of the average area, and a height to width
/// ratio strictly between 1/5 and 5. The ink is the colour that the top-left pixel
/// does not have (the lit pixels of `working_grid`).
pub proof fn law_digit_shaped_components_are_found(
    g: Seq<Seq<u32>>,
    aw: int,
    ah: int,
    out: Seq<(int, int, int, int)>,
    p: (int, int),
    b: (int, int, int, int),
)
    requires
        g.len() > 0,
        g[0].len() > 0,
        stable_position_sort_of(out, select_digits(component_boxes(working_grid(g)), aw, ah)),
        lit(working_grid(g), g[0].len() as int, p),
        is_component_box(working_grid(g), g[0].len() as int, p, b),
        4 * (b.2 - b.0 + 1) >= aw,
        20 * (b.3 - b.1 + 1) >= 13 * ah,
        5 * ((b.2 - b.0 + 1) * (b.3 - b.1 + 1)) >= aw * ah,
        5 * (b.3 - b.1 + 1) > b.2 - b.0 + 1,
        b.3 - b.1 + 1 < 5 * (b.2 - b.0 + 1),
    ensures
        out.contains(b),
{
    let wg = working_grid(g);
    let w = g[0].len() as int;
    assert(wg.len() == g.len());
    assert(wg[0].len() == g[0].len());
    let r = lemma_scan_first(wg, w, p, b);
    lemma_component_box_exists(wg, w, r);
    lemma_component_box_unique(wg, w, r, b, component_box(wg, w, r));
    lemma_grid_boxes_has(wg, w, wg.len() as int, r);
    let all = component_boxes(wg);
    let k = choose|k: int| 0 <= k < all.len() && all[k] == b;
    lemma_select_keeps(all, aw, ah, k);
    let sel = select_digits(all, aw, ah);
    let j = choose|j: int| 0 <= j < sel.len() && sel[j] == b;
    lemma_sorted_keeps_input(out, sel, j);
}

/// Every box that `find_digit` returns passes the digit tests and is the
/// bounding box of a component of the ink.
pub proof fn law_found_boxes_pass_digit_tests(
    g: Seq<Seq<u32>>,
    aw: int,
    ah: int,
    out: Seq<(int, int, int, int)>,
    i: int,
)
    requires
        g.len() > 0,
        g[0].len() > 0,
        stable_position_sort_of(out, select_digits(component_boxes(working_grid(g)), aw, ah)),
        0 <= i < out.len(),
    ensures
        4 * (out[i].2 - out[i].0 + 1) >= aw,
        20 * (out[i].3 - out[i].1 + 1) >= 13 * ah,
        5 * ((out[i].2 - out[i].0 + 1) * (out[i].3 - out[i].1 + 1)) >= aw * ah,
        5 * (out[i].3 - out[i].1 + 1) > out[i].2 - out[i].0 + 1,
        out[i].3 - out[i].1 + 1 < 5 * (out[i].2 - out[i].0 + 1),
        exists|p: (int, int)|
            lit(working_grid(g), g[0].len() as int, p) && #[trigger] is_component_box(
                working_grid(g),
                g[0].len() as int,
                p,
                out[i],
            ),
{
    law_found_digits_are_components(g, aw, ah, out, i);
    let p = choose|p: (int, int)|
        is_anchor(working_grid(g), g[0].len() as int, p) && #[trigger] is_component_box(
            working_grid(g),
            g[0].len() as int,
            p,
            out[i],
        );
    assert(lit(working_grid(g), g[0].len() as int, p));
}

/// The boxes that `find_digit` returns come in reading order: by top edge,
/// and from left to right among boxes with the same top edge.
pub proof fn law_found_boxes_in_reading_order(
    out: Seq<(int, int, int, int)>,
    input: Seq<(int, int, int, int)>,
    i: int,
    j: int,
)
    requires
        stable_position_sort_of(out, input),
        0 <= i < j < out.len(),
    ensures
        out[i].1 < out[j].1 || (out[i].1 == out[j].1 && out[i].0 <= out[j].0),
{
}

proof fn lemma_uniform_sums(s: Seq<(int, int, int, int)>, width: int, height: int)
    requires
        forall|k: int|
            0 <= k < s.len() ==> #[trigger] s[k].2 - s[k].0 + 1 == width && s[k].3 - s[k].1 + 1
                == height,
    ensures
        sum_widths(s) == s.len() * width,
        sum_heights(s) == s.len() * height,
    decreases s.len(),
{
    if s.len() > 0 {
        let d = s.drop_last();
        assert forall|k: int| 0 <= k < d.len() implies #[trigger] d[k].2 - d[k].0 + 1 == width
            && d[k].3 - d[k].1 + 1 == height by {
            assert(d[k] == s[k]);
        }
        lemma_uniform_sums(d, width, height);
        assert(s.last() == s[s.len() - 1]);
        assert(d.len() * width + width == s.len() * width) by (nonlinear_arith)
            requires
                d.len() + 1 == s.len(),
        ;
        assert(d.len() * height + height == s.len() * height) by (nonlinear_arith)
            requires
                d.len() + 1 == s.len(),
        ;
    }
}

/// When every component of the ink is `width` pixels wide and `height`
/// pixels high, the averages that `midsized_digit` returns are `width` and
/// `height`.
pub proof fn law_average_of_equal_components(
    g: Seq<Seq<u32>>,
    width: int,
    height: int,
    avg_width: int,
    avg_height: int,
)
    requires
        g.len() > 0,
        g[0].len() > 0,
        component_boxes(working_grid(g)).len() > 0,
        forall|k: int|
            0 <= k < component_boxes(working_grid(g)).len() ==> #[trigger] component_boxes(
                working_grid(g),
            )[k].2 - component_boxes(working_grid(g))[k].0 + 1 == width && component_boxes(
                working_grid(g),
            )[k].3 - component_boxes(working_grid(g))[k].1 + 1 == height,
        avg_width == sum_widths(component_boxes(working_grid(g))) / (component_boxes(
            working_grid(g),
        ).len() as int),
        avg_height == sum_heights(component_boxes(working_grid(g))) / (component_boxes(
            working_grid(g),
        ).len() as int),
    ensures
        avg_width == width,
        avg_height == height,
{
    let bs = component_boxes(working_grid(g));
    lemma_uniform_sums(bs, width, height);
    let n = bs.len() as int;
    assert((n * width) / n == width) by (nonlinear_arith)
        requires
            n > 0,
    ;
    assert((n * height) / n == height) by (nonlinear_arith)
        requires
            n > 0,
    ;
}

} // verus!
