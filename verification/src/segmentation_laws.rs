//! Laws of the segmentation: inverting an image twice, inverting it before
//! the segmentation, and raising the average size against which digits are
//! selected.
use vstd::prelude::*;
use crate::component_box::lemma_component_box_exists;
use crate::flood::{is_component_box, lemma_component_box_unique};
use crate::grid::{connected, is_path, lit};
use crate::midsized_letter::{
    claimed, component_box, component_boxes, digit_like, grid_boxes, inverted, is_anchor,
    row_boxes, scan_before, select_digits, working_grid,
};
use crate::position_sort::{
    lemma_sorted_from_input, lemma_sorted_keeps_input, stable_position_sort_of,
};

verus! {

/// Inverting an image of zeros and ones twice gives it back.
pub proof fn law_invert_involution(g: Seq<Seq<u32>>)
    requires
        forall|y: int, x: int| 0 <= y < g.len() && 0 <= x < g[y].len() ==> #[trigger] g[y][x] == 0
            || g[y][x] == 1,
    ensures
        inverted(inverted(g)) == g,
{
    let h = inverted(inverted(g));
    assert forall|y: int| 0 <= y < g.len() implies #[trigger] h[y] =~= g[y] by {
        assert forall|x: int| 0 <= x < g[y].len() implies h[y][x] == g[y][x] by {
            assert(g[y][x] == 0 || g[y][x] == 1);
        }
    }
    assert(h =~= g);
}

/// Two grids of the same shape whose lit pixels are the same.
pub open spec fn same_lit(g1: Seq<Seq<u32>>, g2: Seq<Seq<u32>>) -> bool {
    &&& g1.len() == g2.len()
    &&& forall|y: int| 0 <= y < g1.len() ==> #[trigger] g1[y].len() == g2[y].len()
    &&& forall|y: int, x: int|
        0 <= y < g1.len() && 0 <= x < g1[y].len() ==> (#[trigger] g1[y][x] != 0) == (g2[y][x] != 0)
}

proof fn lemma_same_lit_connected(g1: Seq<Seq<u32>>, g2: Seq<Seq<u32>>, w: int)
    requires
        same_lit(g1, g2),
    ensures
        forall|q: (int, int)| #[trigger] lit(g1, w, q) == lit(g2, w, q),
        forall|a: (int, int), b: (int, int)| #[trigger] connected(g1, w, a, b) == connected(g2, w, a, b),
{
    assert forall|q: (int, int)| #[trigger] lit(g1, w, q) == lit(g2, w, q) by {
        if 0 <= q.1 < g1.len() && 0 <= q.0 < g1[q.1].len() {
            assert((g1[q.1][q.0] != 0) == (g2[q.1][q.0] != 0));
        }
    }
    assert forall|p: Seq<(int, int)>| #[trigger] is_path(g1, w, p) == is_path(g2, w, p) by {
        if is_path(g1, w, p) {
            assert forall|i: int| 0 <= i < p.len() implies lit(g2, w, #[trigger] p[i]) by {
                assert(lit(g1, w, p[i]));
            }
        }
        if is_path(g2, w, p) {
            assert forall|i: int| 0 <= i < p.len() implies lit(g1, w, #[trigger] p[i]) by {
                assert(lit(g2, w, p[i]));
            }
        }
    }
    assert forall|a: (int, int), b: (int, int)| #[trigger] connected(g1, w, a, b) == connected(
        g2,
        w,
        a,
        b,
    ) by {
        if connected(g1, w, a, b) {
            let p = choose|p: Seq<(int, int)>|
                #[trigger] is_path(g1, w, p) && p[0] == a && p[p.len() - 1] == b;
            assert(is_path(g2, w, p));
        }
        if connected(g2, w, a, b) {
            let p = choose|p: Seq<(int, int)>|
                #[trigger] is_path(g2, w, p) && p[0] == a && p[p.len() - 1] == b;
            assert(is_path(g1, w, p));
        }
    }
}

proof fn lemma_transfer_box(
    g1: Seq<Seq<u32>>,
    g2: Seq<Seq<u32>>,
    w: int,
    p: (int, int),
    b: (int, int, int, int),
)
    requires
        same_lit(g1, g2),
        is_component_box(g2, w, p, b),
    ensures
        is_component_box(g1, w, p, b),
{
    lemma_same_lit_connected(g1, g2, w);
    assert forall|q: (int, int)| #[trigger] connected(g1, w, p, q) implies b.0 <= q.0 <= b.2 && b.1
        <= q.1 <= b.3 by {
        assert(connected(g2, w, p, q));
    }
    let q0 = choose|q: (int, int)| #[trigger] connected(g2, w, p, q) && q.0 == b.0;
    let q1 = choose|q: (int, int)| #[trigger] connected(g2, w, p, q) && q.1 == b.1;
    let q2 = choose|q: (int, int)| #[trigger] connected(g2, w, p, q) && q.0 == b.2;
    let q3 = choose|q: (int, int)| #[trigger] connected(g2, w, p, q) && q.1 == b.3;
    assert(connected(g1, w, p, q0) && connected(g1, w, p, q1));
    assert(connected(g1, w, p, q2) && connected(g1, w, p, q3));
}

proof fn lemma_same_lit_anchor_box(g1: Seq<Seq<u32>>, g2: Seq<Seq<u32>>, w: int, p: (int, int))
    requires
        same_lit(g1, g2),
    ensures
        is_anchor(g1, w, p) == is_anchor(g2, w, p),
        is_anchor(g1, w, p) ==> component_box(g1, w, p) == component_box(g2, w, p),
{
    lemma_same_lit_connected(g1, g2, w);
    assert(lit(g1, w, p) == lit(g2, w, p));
    if claimed(g1, w, p, p) {
        let r = choose|r: (int, int)| #[trigger] connected(g1, w, p, r) && scan_before(r, p);
        assert(connected(g2, w, p, r));
    }
    if claimed(g2, w, p, p) {
        let r = choose|r: (int, int)| #[trigger] connected(g2, w, p, r) && scan_before(r, p);
        assert(connected(g1, w, p, r));
    }
    if is_anchor(g1, w, p) {
        lemma_component_box_exists(g1, w, p);
        lemma_component_box_exists(g2, w, p);
        let b1 = component_box(g1, w, p);
        let b2 = component_box(g2, w, p);
        assert(is_component_box(g1, w, p, b1));
        assert(is_component_box(g2, w, p, b2));
        lemma_transfer_box(g1, g2, w, p, b2);
        lemma_component_box_unique(g1, w, p, b1, b2);
    }
}

proof fn lemma_same_lit_row_boxes(g1: Seq<Seq<u32>>, g2: Seq<Seq<u32>>, w: int, y: int, x: int)
    requires
        same_lit(g1, g2),
    ensures
        row_boxes(g1, w, y, x) == row_boxes(g2, w, y, x),
    decreases x,
{
    if x > 0 {
        lemma_same_lit_row_boxes(g1, g2, w, y, x - 1);
        lemma_same_lit_anchor_box(g1, g2, w, (x - 1, y));
    }
}

proof fn lemma_same_lit_grid_boxes(g1: Seq<Seq<u32>>, g2: Seq<Seq<u32>>, w: int, y: int)
    requires
        same_lit(g1, g2),
    ensures
        grid_boxes(g1, w, y) == grid_boxes(g2, w, y),
    decreases y,
{
    if y > 0 {
        lemma_same_lit_grid_boxes(g1, g2, w, y - 1);
        lemma_same_lit_row_boxes(g1, g2, w, y - 1, w);
    }
}

/// Inverting an image before the segmentation changes neither its
/// components nor their boxes: the ink is the colour that the top-left
/// pixel does not have, before inversion as after it. So `midsized_digit`
/// and `find_digit` give the same results on an image and on its inverse.
pub proof fn law_inversion_keeps_component_boxes(g: Seq<Seq<u32>>)
    requires
        g.len() > 0,
        g[0].len() > 0,
    ensures
        component_boxes(working_grid(inverted(g))) == component_boxes(working_grid(g)),
{
    let i = inverted(g);
    if g[0][0] != 0 {
        assert(i[0][0] == 0);
        assert(working_grid(i) == i);
    } else {
        assert(i[0][0] == 1);
        let ii = inverted(i);
        assert(same_lit(ii, g)) by {
            assert forall|y: int, x: int| 0 <= y < ii.len() && 0 <= x < ii[y].len() implies (
            #[trigger] ii[y][x] != 0) == (g[y][x] != 0) by {
                assert(ii[y][x] == if i[y][x] == 0 { 1u32 } else { 0u32 });
                assert(i[y][x] == if g[y][x] == 0 { 1u32 } else { 0u32 });
            }
        }
        lemma_same_lit_grid_boxes(ii, g, g[0].len() as int, g.len() as int);
        assert(ii[0].len() == g[0].len());
    }
}

/// Raising the average size can only drop digits: a box that passes the
/// digit tests against larger averages passes them against smaller ones.
pub proof fn law_digit_tests_weaken_with_averages(
    b: (int, int, int, int),
    aw1: int,
    ah1: int,
    aw2: int,
    ah2: int,
)
    requires
        0 <= aw1 <= aw2,
        0 <= ah1 <= ah2,
        digit_like(b, aw2, ah2),
    ensures
        digit_like(b, aw1, ah1),
{
    assert(aw1 * ah1 <= aw2 * ah2) by (nonlinear_arith)
        requires
            0 <= aw1 <= aw2,
            0 <= ah1 <= ah2,
    ;
}

proof fn lemma_select_shrinks(s: Seq<(int, int, int, int)>, aw1: int, ah1: int, aw2: int, ah2: int, j: int)
    requires
        0 <= aw1 <= aw2,
        0 <= ah1 <= ah2,
        0 <= j < select_digits(s, aw2, ah2).len(),
    ensures
        select_digits(s, aw1, ah1).contains(select_digits(s, aw2, ah2)[j]),
    decreases s.len(),
{
    if s.len() > 0 {
        let prev1 = select_digits(s.drop_last(), aw1, ah1);
        let prev2 = select_digits(s.drop_last(), aw2, ah2);
        if digit_like(s.last(), aw2, ah2) && j == prev2.len() {
            law_digit_tests_weaken_with_averages(s.last(), aw1, ah1, aw2, ah2);
            let sel1 = select_digits(s, aw1, ah1);
            assert(sel1[sel1.len() - 1] == s.last());
        } else {
            assert(select_digits(s, aw2, ah2)[j] == prev2[j]);
            lemma_select_shrinks(s.drop_last(), aw1, ah1, aw2, ah2, j);
            let k = choose|k: int| 0 <= k < prev1.len() && prev1[k] == prev2[j];
            let sel1 = select_digits(s, aw1, ah1);
            assert(sel1[k] == prev1[k]);
        }
    }
}

/// Every box that `find_digit` returns for an image against larger
/// averages it also returns against smaller ones.
pub proof fn law_found_digits_shrink_with_averages(
    g: Seq<Seq<u32>>,
    aw1: int,
    ah1: int,
    aw2: int,
    ah2: int,
    out1: Seq<(int, int, int, int)>,
    out2: Seq<(int, int, int, int)>,
    i: int,
)
    requires
        0 <= aw1 <= aw2,
        0 <= ah1 <= ah2,
        stable_position_sort_of(out1, select_digits(component_boxes(working_grid(g)), aw1, ah1)),
        stable_position_sort_of(out2, select_digits(component_boxes(working_grid(g)), aw2, ah2)),
        0 <= i < out2.len(),
    ensures
        out1.contains(out2[i]),
{
    let all = component_boxes(working_grid(g));
    let sel1 = select_digits(all, aw1, ah1);
    let sel2 = select_digits(all, aw2, ah2);
    lemma_sorted_from_input(out2, sel2, i);
    let j = choose|j: int| 0 <= j < sel2.len() && sel2[j] == out2[i];
    lemma_select_shrinks(all, aw1, ah1, aw2, ah2, j);
    let k = choose|k: int| 0 <= k < sel1.len() && sel1[k] == sel2[j];
    lemma_sorted_keeps_input(out1, sel1, k);
}

} // verus!
