//! The flood fill that clears one 4-connected component of lit pixels and
//! measures its bounding box.
use vstd::prelude::*;
use crate::grid::{
    adjacent, connected, grid, lemma_closed_set_holds_component, lemma_connected_lit,
    lemma_connected_refl, lemma_connected_step, lit, rows_at_least,
};

verus! {

/// Smallest rectangle that holds a component, bounds included.
#[derive(Debug, Clone, Copy)]
pub(crate) struct BoundingBox {
    pub(crate) min_x: usize,
    pub(crate) max_x: usize,
    pub(crate) min_y: usize,
    pub(crate) max_y: usize,
}

/// `b = (min_x, min_y, max_x, max_y)` is the bounding box of the component
/// of `s`: every member lies inside it and each side is touched by a member.
pub open spec fn is_component_box(
    g: Seq<Seq<u32>>,
    w: int,
    s: (int, int),
    b: (int, int, int, int),
) -> bool {
    &&& forall|q: (int, int)|
        #[trigger] connected(g, w, s, q) ==> b.0 <= q.0 <= b.2 && b.1 <= q.1 <= b.3
    &&& exists|q: (int, int)| #[trigger] connected(g, w, s, q) && q.0 == b.0
    &&& exists|q: (int, int)| #[trigger] connected(g, w, s, q) && q.1 == b.1
    &&& exists|q: (int, int)| #[trigger] connected(g, w, s, q) && q.0 == b.2
    &&& exists|q: (int, int)| #[trigger] connected(g, w, s, q) && q.1 == b.3
}

/// The box of a component is determined by the component.
pub proof fn lemma_component_box_unique(
    g: Seq<Seq<u32>>,
    w: int,
    s: (int, int),
    b1: (int, int, int, int),
    b2: (int, int, int, int),
)
    requires
        is_component_box(g, w, s, b1),
        is_component_box(g, w, s, b2),
    ensures
        b1 == b2,
{
}

/// The grid with the component of `s` cleared to zero.
pub open spec fn without_component(g: Seq<Seq<u32>>, w: int, s: (int, int)) -> Seq<Seq<u32>> {
    Seq::new(
        g.len(),
        |y: int|
            Seq::new(g[y].len(), |x: int| if connected(g, w, s, (x, y)) { 0u32 } else { g[y][x] }),
    )
}

/// Number of lit pixels among the first `k` pixels of a row.
pub open spec fn count_row(r: Seq<u32>, k: int) -> nat
    decreases k,
{
    if k <= 0 {
        0
    } else {
        count_row(r, k - 1) + if r[k - 1] != 0 { 1nat } else { 0nat }
    }
}

/// Number of lit pixels in the first `n` rows of the window of width `w`.
pub open spec fn count_rows(g: Seq<Seq<u32>>, w: int, n: int) -> nat
    decreases n,
{
    if n <= 0 {
        0
    } else {
        count_rows(g, w, n - 1) + count_row(g[n - 1], w)
    }
}

proof fn lemma_count_row_clear(r: Seq<u32>, x: int, k: int)
    requires
        0 <= x < r.len(),
        k <= r.len(),
        r[x] != 0,
    ensures
        count_row(r.update(x, 0u32), k) + (if 0 <= x < k { 1nat } else { 0nat }) == count_row(r, k),
    decreases k,
{
    if k > 0 {
        lemma_count_row_clear(r, x, k - 1);
    }
}

proof fn lemma_count_rows_clear(g: Seq<Seq<u32>>, w: int, x: int, y: int, n: int)
    requires
        0 <= y < g.len(),
        0 <= x < w <= g[y].len(),
        n <= g.len(),
        g[y][x] != 0,
    ensures
        count_rows(g.update(y, g[y].update(x, 0u32)), w, n) + (if 0 <= y < n { 1nat } else { 0nat })
            == count_rows(g, w, n),
    decreases n,
{
    if n > 0 {
        lemma_count_rows_clear(g, w, x, y, n - 1);
        if n - 1 == y {
            lemma_count_row_clear(g[y], x, w);
        }
    }
}

/// The stack holds the point `q`.
pub open spec fn in_stack(st: Seq<(usize, usize)>, q: (int, int)) -> bool {
    exists|i: int| 0 <= i < st.len() && #[trigger] st[i].0 == q.0 && st[i].1 == q.1
}

proof fn lemma_in_stack_push(st: Seq<(usize, usize)>, e: (usize, usize), q: (int, int))
    requires
        in_stack(st, q) || (e.0 == q.0 && e.1 == q.1),
    ensures
        in_stack(st.push(e), q),
{
    if in_stack(st, q) {
        let i = choose|i: int| 0 <= i < st.len() && #[trigger] st[i].0 == q.0 && st[i].1 == q.1;
        assert(st.push(e)[i] == st[i]);
    } else {
        assert(st.push(e)[st.len() as int] == e);
    }
}

proof fn lemma_in_stack_prefix(st: Seq<(usize, usize)>, st2: Seq<(usize, usize)>, q: (int, int))
    requires
        in_stack(st, q),
        st.len() <= st2.len(),
        forall|i: int| 0 <= i < st.len() ==> st2[i] == st[i],
    ensures
        in_stack(st2, q),
{
    let i = choose|i: int| 0 <= i < st.len() && #[trigger] st[i].0 == q.0 && st[i].1 == q.1;
    assert(st2[i] == st[i]);
}

proof fn lemma_in_stack_pop(st: Seq<(usize, usize)>, q: (int, int))
    requires
        st.len() > 0,
        in_stack(st, q),
        !(st.last().0 == q.0 && st.last().1 == q.1),
    ensures
        in_stack(st.drop_last(), q),
{
    let i = choose|i: int| 0 <= i < st.len() && #[trigger] st[i].0 == q.0 && st[i].1 == q.1;
    assert(st.drop_last()[i] == st[i]);
}

/// Clears the 4-connected component of lit pixels that holds the start pixel
/// and returns its bounding box; `None`, with the pixels unchanged, for an
/// empty image or a start pixel that is not lit.
#[verifier::rlimit(60)]
pub(crate) fn flood_fill_bounding_box(
    pixels: &mut Vec<Vec<u32>>,
    start_x: usize,
    start_y: usize,
) -> (r: Option<BoundingBox>)
    requires
        old(pixels).len() > 0 ==> start_y < old(pixels).len() && start_x < old(
            pixels,
        )@[start_y as int]@.len(),
        old(pixels).len() > 0 && old(pixels)@[start_y as int]@[start_x as int] != 0 ==> start_x
            < old(pixels)@[0]@.len() && rows_at_least(
            grid(*old(pixels)),
            old(pixels)@[0]@.len() as int,
        ),
    ensures
        old(pixels).len() == 0 || old(pixels)@[start_y as int]@[start_x as int] == 0 ==> r is None
            && final(pixels)@ == old(pixels)@,
        old(pixels).len() > 0 && old(pixels)@[start_y as int]@[start_x as int] != 0 ==> ({
            let g0 = grid(*old(pixels));
            let w = g0[0].len() as int;
            let s = (start_x as int, start_y as int);
            &&& grid(*final(pixels)) == without_component(g0, w, s)
            &&& r matches Some(b) && is_component_box(
                g0,
                w,
                s,
                (b.min_x as int, b.min_y as int, b.max_x as int, b.max_y as int),
            )
        }),
{
    let height = pixels.len();
    if height == 0 {
        return None;
    }
    if pixels[start_y][start_x] == 0 {
        return None;
    }
    let ghost g0 = grid(*pixels);
    let width = pixels[0].len();
    let ghost w = width as int;
    let ghost s = (start_x as int, start_y as int);
    proof {
        assert(g0[start_y as int].len() >= w);
        assert(g0[start_y as int] == pixels@[start_y as int]@);
    }
    let mut stack: Vec<(usize, usize)> = Vec::new();
    stack.push((start_x, start_y));
    let mut bbox = BoundingBox { min_x: start_x, max_x: start_x, min_y: start_y, max_y: start_y };
    let ghost mut vis: Set<(int, int)> = Set::empty();
    proof {
        assert(stack@[0] == (start_x, start_y));
        lemma_connected_refl(g0, w, s);
    }
    while stack.len() > 0
        invariant
            g0 == grid(*old(pixels)),
            height == g0.len(),
            w == width,
            width == g0[0].len(),
            s == (start_x as int, start_y as int),
            start_x < width,
            start_y < height,
            rows_at_least(g0, w),
            lit(g0, w, s),
            pixels@.len() == height,
            forall|y: int| 0 <= y < height ==> #[trigger] grid(*pixels)[y].len() == g0[y].len(),
            forall|y: int, x: int|
                0 <= y < height && 0 <= x < g0[y].len() ==> #[trigger] grid(*pixels)[y][x] == if vis.contains((x, y)) {
                    0u32
                } else {
                    g0[y][x]
                },
            forall|v: (int, int)| #[trigger] vis.contains(v) ==> connected(g0, w, s, v),
            forall|i: int|
                0 <= i < stack@.len() ==> {
                    &&& (#[trigger] stack@[i]).0 < width
                    &&& stack@[i].1 < height
                    &&& connected(g0, w, s, (stack@[i].0 as int, stack@[i].1 as int))
                },
            forall|v: (int, int), q: (int, int)|
                vis.contains(v) && #[trigger] adjacent(v, q) && lit(grid(*pixels), w, q) ==> in_stack(
                    stack@,
                    q,
                ),
            lit(grid(*pixels), w, s) ==> in_stack(stack@, s),
            forall|v: (int, int)|
                #[trigger] vis.contains(v) ==> bbox.min_x <= v.0 <= bbox.max_x && bbox.min_y <= v.1
                    <= bbox.max_y,
            bbox.min_x <= s.0 <= bbox.max_x && bbox.min_y <= s.1 <= bbox.max_y,
            bbox.min_x == s.0 || exists|v: (int, int)| #[trigger] vis.contains(v) && v.0 == bbox.min_x,
            bbox.max_x == s.0 || exists|v: (int, int)| #[trigger] vis.contains(v) && v.0 == bbox.max_x,
            bbox.min_y == s.1 || exists|v: (int, int)| #[trigger] vis.contains(v) && v.1 == bbox.min_y,
            bbox.max_y == s.1 || exists|v: (int, int)| #[trigger] vis.contains(v) && v.1 == bbox.max_y,
        decreases 5 * count_rows(grid(*pixels), w, height as int) + stack@.len(),
    {
        let ghost st_before = stack@;
        let ghost cur = grid(*pixels);
        let (cx, cy) = stack.pop().unwrap();
        let ghost p = (cx as int, cy as int);
        proof {
            assert(st_before[st_before.len() - 1].0 < width);
            assert(cur[cy as int].len() == g0[cy as int].len());
            assert(g0[cy as int].len() >= w);
            assert(cur[cy as int] == pixels@[cy as int]@);
            assert(st_before[st_before.len() - 1] == (cx, cy));
            assert(stack@ == st_before.drop_last());
            assert forall|v: (int, int), q: (int, int)|
                vis.contains(v) && #[trigger] adjacent(v, q) && lit(cur, w, q) && q != p implies in_stack(
                stack@,
                q,
            ) by {
                lemma_in_stack_pop(st_before, q);
            }
            if lit(cur, w, s) && s != p {
                lemma_in_stack_pop(st_before, s);
            }
        }
        if pixels[cy][cx] == 0 {
            proof {
                assert(!lit(cur, w, p));
            }
            continue;
        }
        pixels[cy][cx] = 0;
        proof {
            let nxt = cur.update(cy as int, cur[cy as int].update(cx as int, 0u32));
            assert(grid(*pixels) =~= nxt);
            lemma_count_rows_clear(cur, w, cx as int, cy as int, height as int);
            assert(!vis.contains(p));
        }
        let ghost vis_old = vis;
        let ghost bb_old = bbox;
        proof {
            vis = vis.insert(p);
        }
        let ghost cleared = grid(*pixels);
        if cx < bbox.min_x {
            bbox.min_x = cx;
        }
        if cx > bbox.max_x {
            bbox.max_x = cx;
        }
        if cy < bbox.min_y {
            bbox.min_y = cy;
        }
        if cy > bbox.max_y {
            bbox.max_y = cy;
        }
        proof {
            if bbox.min_x != start_x {
                if bbox.min_x == cx {
                    assert(vis.contains(p));
                } else {
                    let v = choose|v: (int, int)| #[trigger] vis_old.contains(v) && v.0 == bb_old.min_x;
                    assert(vis.contains(v));
                }
            }
            if bbox.max_x != start_x {
                if bbox.max_x == cx {
                    assert(vis.contains(p));
                } else {
                    let v = choose|v: (int, int)| #[trigger] vis_old.contains(v) && v.0 == bb_old.max_x;
                    assert(vis.contains(v));
                }
            }
            if bbox.min_y != start_y {
                if bbox.min_y == cy {
                    assert(vis.contains(p));
                } else {
                    let v = choose|v: (int, int)| #[trigger] vis_old.contains(v) && v.1 == bb_old.min_y;
                    assert(vis.contains(v));
                }
            }
            if bbox.max_y != start_y {
                if bbox.max_y == cy {
                    assert(vis.contains(p));
                } else {
                    let v = choose|v: (int, int)| #[trigger] vis_old.contains(v) && v.1 == bb_old.max_y;
                    assert(vis.contains(v));
                }
            }
        }
        let ghost st_mid = stack@;
        proof {
            assert forall|y: int| 0 <= y < height implies #[trigger] pixels@[y]@.len() >= width by {
                assert(grid(*pixels)[y] == pixels@[y]@);
                assert(g0[y].len() >= w);
            }
        }
        if cx + 1 < width && pixels[cy][cx + 1] != 0 {
            stack.push((cx + 1, cy));
        }
        let ghost st1 = stack@;
        if cx > 0 && pixels[cy][cx - 1] != 0 {
            stack.push((cx - 1, cy));
        }
        let ghost st2 = stack@;
        if cy + 1 < height && pixels[cy + 1][cx] != 0 {
            stack.push((cx, cy + 1));
        }
        let ghost st3 = stack@;
        if cy > 0 && pixels[cy - 1][cx] != 0 {
            stack.push((cx, cy - 1));
        }
        proof {
            let fin = stack@;
            let e1 = (cx as int + 1, cy as int);
            let e2 = (cx as int - 1, cy as int);
            let e3 = (cx as int, cy as int + 1);
            let e4 = (cx as int, cy as int - 1);
            assert(lit(cleared, w, e1) ==> st1 == st_mid.push(((cx + 1) as usize, cy)));
            if lit(cleared, w, e1) {
                lemma_in_stack_push(st_mid, ((cx + 1) as usize, cy), e1);
                lemma_in_stack_prefix(st1, fin, e1);
            }
            if lit(cleared, w, e2) {
                assert(st2 == st1.push(((cx - 1) as usize, cy)));
                lemma_in_stack_push(st1, ((cx - 1) as usize, cy), e2);
                lemma_in_stack_prefix(st2, fin, e2);
            }
            if lit(cleared, w, e3) {
                assert(st3 == st2.push((cx, (cy + 1) as usize)));
                lemma_in_stack_push(st2, (cx, (cy + 1) as usize), e3);
                lemma_in_stack_prefix(st3, fin, e3);
            }
            if lit(cleared, w, e4) {
                lemma_in_stack_push(st3, (cx, (cy - 1) as usize), e4);
            }
            assert(lit(g0, w, p));
            assert forall|q: (int, int)|
                #[trigger] adjacent(p, q) && lit(cleared, w, q) implies connected(g0, w, s, q) by {
                assert(lit(g0, w, q));
                lemma_connected_step(g0, w, s, p, q);
            }
            assert forall|i: int| 0 <= i < fin.len() implies {
                &&& (#[trigger] fin[i]).0 < width
                &&& fin[i].1 < height
                &&& connected(g0, w, s, (fin[i].0 as int, fin[i].1 as int))
            } by {
                if i < st_mid.len() {
                    assert(fin[i] == st_mid[i]);
                    assert(st_before[i] == st_mid[i]);
                } else {
                    let q = (fin[i].0 as int, fin[i].1 as int);
                    assert(adjacent(p, q) && lit(cleared, w, q));
                }
            }
            assert forall|v: (int, int), q: (int, int)|
                vis.contains(v) && #[trigger] adjacent(v, q) && lit(cleared, w, q) implies in_stack(
                fin,
                q,
            ) by {
                if v == p {
                } else {
                    assert(lit(cur, w, q));
                    lemma_in_stack_prefix(st_mid, fin, q);
                }
            }
            if lit(cleared, w, s) {
                lemma_in_stack_prefix(st_mid, fin, s);
            }
        }
    }
    proof {
        let fin = grid(*pixels);
        assert forall|v: (int, int), q: (int, int)|
            vis.contains(v) && #[trigger] adjacent(v, q) && lit(g0, w, q) implies vis.contains(q) by {
            if !vis.contains(q) {
                assert(fin[q.1][q.0] == g0[q.1][q.0]);
                assert(lit(fin, w, q));
            }
        }
        if !vis.contains(s) {
            assert(fin[s.1][s.0] == g0[s.1][s.0]);
        }
        assert forall|q: (int, int)| #[trigger] connected(g0, w, s, q) <==> vis.contains(q) by {
            if connected(g0, w, s, q) {
                lemma_closed_set_holds_component(g0, w, vis, s, q);
            }
        }
        assert forall|y: int| 0 <= y < g0.len() implies #[trigger] fin[y]
            =~= without_component(g0, w, s)[y] by {}
        assert(fin =~= without_component(g0, w, s));
        lemma_connected_refl(g0, w, s);
    }
    Some(bbox)
}

} // verus!
