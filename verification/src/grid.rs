//! Mathematical model of a pixel grid: lit pixels, 4-adjacency, paths and
//! connectivity, with the lemmas that the component search rests on.
use vstd::prelude::*;

verus! {

/// The rows of a matrix, each row by its view.
pub open spec fn grid(v: Vec<Vec<u32>>) -> Seq<Seq<u32>> {
    v@.map_values(|r: Vec<u32>| r@)
}

/// Every row is at least `w` pixels long (the window is `w` wide).
pub open spec fn rows_at_least(g: Seq<Seq<u32>>, w: int) -> bool {
    forall|y: int| 0 <= y < g.len() ==> #[trigger] g[y].len() >= w
}

/// A point `(x, y)` of the window `[0, w) x [0, g.len())`.
pub open spec fn in_window(g: Seq<Seq<u32>>, w: int, p: (int, int)) -> bool {
    0 <= p.0 < w && 0 <= p.1 < g.len()
}

/// A pixel of the window whose value is not zero.
pub open spec fn lit(g: Seq<Seq<u32>>, w: int, p: (int, int)) -> bool {
    &&& in_window(g, w, p)
    &&& p.0 < g[p.1].len()
    &&& g[p.1][p.0] != 0
}

/// 4-adjacency: the two points differ by one in exactly one coordinate.
pub open spec fn adjacent(a: (int, int), b: (int, int)) -> bool {
    ||| (a.0 == b.0 && (a.1 == b.1 + 1 || b.1 == a.1 + 1))
    ||| (a.1 == b.1 && (a.0 == b.0 + 1 || b.0 == a.0 + 1))
}

/// The `i`-th step of a path joins two adjacent points.
pub open spec fn step_ok(path: Seq<(int, int)>, i: int) -> bool {
    adjacent(path[i], path[i + 1])
}

/// A non-empty walk through lit pixels, each step to a 4-neighbour.
pub open spec fn is_path(g: Seq<Seq<u32>>, w: int, path: Seq<(int, int)>) -> bool {
    &&& path.len() > 0
    &&& forall|i: int| 0 <= i < path.len() ==> lit(g, w, #[trigger] path[i])
    &&& forall|i: int| 0 <= i < path.len() - 1 ==> #[trigger] step_ok(path, i)
}

/// `b` lies in the 4-connected component of lit pixels that holds `a`.
pub open spec fn connected(g: Seq<Seq<u32>>, w: int, a: (int, int), b: (int, int)) -> bool {
    exists|path: Seq<(int, int)>|
        #[trigger] is_path(g, w, path) && path[0] == a && path[path.len() - 1] == b
}

pub proof fn lemma_connected_refl(g: Seq<Seq<u32>>, w: int, a: (int, int))
    requires
        lit(g, w, a),
    ensures
        connected(g, w, a, a),
{
    let path = seq![a];
    assert(is_path(g, w, path));
}

pub proof fn lemma_connected_lit(g: Seq<Seq<u32>>, w: int, a: (int, int), b: (int, int))
    requires
        connected(g, w, a, b),
    ensures
        lit(g, w, a),
        lit(g, w, b),
{
    let path = choose|path: Seq<(int, int)>|
        #[trigger] is_path(g, w, path) && path[0] == a && path[path.len() - 1] == b;
    assert(lit(g, w, path[0]));
    assert(lit(g, w, path[path.len() - 1]));
}

/// A component grows by a lit neighbour.
pub proof fn lemma_connected_step(
    g: Seq<Seq<u32>>,
    w: int,
    a: (int, int),
    b: (int, int),
    c: (int, int),
)
    requires
        connected(g, w, a, b),
        adjacent(b, c),
        lit(g, w, c),
    ensures
        connected(g, w, a, c),
{
    let path = choose|path: Seq<(int, int)>|
        #[trigger] is_path(g, w, path) && path[0] == a && path[path.len() - 1] == b;
    let np = path.push(c);
    assert forall|i: int| 0 <= i < np.len() - 1 implies #[trigger] step_ok(np, i) by {
        if i < path.len() - 1 {
            assert(step_ok(path, i));
        }
    }
    assert forall|i: int| 0 <= i < np.len() implies lit(g, w, #[trigger] np[i]) by {
        if i < path.len() {
            assert(lit(g, w, path[i]));
        }
    }
    assert(is_path(g, w, np));
}

pub proof fn lemma_connected_symm(g: Seq<Seq<u32>>, w: int, a: (int, int), b: (int, int))
    requires
        connected(g, w, a, b),
    ensures
        connected(g, w, b, a),
{
    let path = choose|path: Seq<(int, int)>|
        #[trigger] is_path(g, w, path) && path[0] == a && path[path.len() - 1] == b;
    let n = path.len();
    let rp = Seq::new(n, |i: int| path[n - 1 - i]);
    assert forall|i: int| 0 <= i < rp.len() - 1 implies #[trigger] step_ok(rp, i) by {
        assert(step_ok(path, n - 2 - i));
    }
    assert forall|i: int| 0 <= i < rp.len() implies lit(g, w, #[trigger] rp[i]) by {
        assert(lit(g, w, path[n - 1 - i]));
    }
    assert(is_path(g, w, rp));
}

pub proof fn lemma_connected_trans(
    g: Seq<Seq<u32>>,
    w: int,
    a: (int, int),
    b: (int, int),
    c: (int, int),
)
    requires
        connected(g, w, a, b),
        connected(g, w, b, c),
    ensures
        connected(g, w, a, c),
{
    let p1 = choose|path: Seq<(int, int)>|
        #[trigger] is_path(g, w, path) && path[0] == a && path[path.len() - 1] == b;
    let p2 = choose|path: Seq<(int, int)>|
        #[trigger] is_path(g, w, path) && path[0] == b && path[path.len() - 1] == c;
    let np = p1 + p2.skip(1);
    let n1 = p1.len();
    assert forall|i: int| 0 <= i < np.len() implies lit(g, w, #[trigger] np[i]) by {
        if i < n1 {
            assert(lit(g, w, p1[i]));
        } else {
            assert(lit(g, w, p2[i - n1 + 1]));
        }
    }
    assert forall|i: int| 0 <= i < np.len() - 1 implies #[trigger] step_ok(np, i) by {
        if i < n1 - 1 {
            assert(step_ok(p1, i));
        } else {
            assert(step_ok(p2, i - n1 + 1));
        }
    }
    assert(is_path(g, w, np));
}

/// A set that holds `s` and every lit neighbour of its members holds the
/// whole component of `s`.
pub proof fn lemma_closed_set_holds_component(
    g: Seq<Seq<u32>>,
    w: int,
    vis: Set<(int, int)>,
    s: (int, int),
    b: (int, int),
)
    requires
        vis.contains(s),
        forall|v: (int, int), q: (int, int)|
            vis.contains(v) && #[trigger] adjacent(v, q) && lit(g, w, q) ==> vis.contains(q),
        connected(g, w, s, b),
    ensures
        vis.contains(b),
{
    let path = choose|path: Seq<(int, int)>|
        #[trigger] is_path(g, w, path) && path[0] == s && path[path.len() - 1] == b;
    lemma_closed_set_holds_prefix(g, w, vis, path, path.len() - 1);
}

proof fn lemma_closed_set_holds_prefix(
    g: Seq<Seq<u32>>,
    w: int,
    vis: Set<(int, int)>,
    path: Seq<(int, int)>,
    i: int,
)
    requires
        is_path(g, w, path),
        0 <= i < path.len(),
        vis.contains(path[0]),
        forall|v: (int, int), q: (int, int)|
            vis.contains(v) && #[trigger] adjacent(v, q) && lit(g, w, q) ==> vis.contains(q),
    ensures
        vis.contains(path[i]),
    decreases i,
{
    if i > 0 {
        lemma_closed_set_holds_prefix(g, w, vis, path, i - 1);
        assert(step_ok(path, i - 1));
        assert(lit(g, w, path[i]));
    }
}

/// Connectivity carries over to a grid that keeps every pixel of the
/// component lit.
pub proof fn lemma_connected_transfer(
    g1: Seq<Seq<u32>>,
    g2: Seq<Seq<u32>>,
    w: int,
    a: (int, int),
    b: (int, int),
)
    requires
        connected(g1, w, a, b),
        forall|q: (int, int)| #[trigger] connected(g1, w, a, q) ==> lit(g2, w, q),
    ensures
        connected(g2, w, a, b),
{
    let path = choose|path: Seq<(int, int)>|
        #[trigger] is_path(g1, w, path) && path[0] == a && path[path.len() - 1] == b;
    assert forall|i: int| 0 <= i < path.len() implies lit(g2, w, #[trigger] path[i]) by {
        let pre = path.take(i + 1);
        assert forall|j: int| 0 <= j < pre.len() implies lit(g1, w, #[trigger] pre[j]) by {
            assert(lit(g1, w, path[j]));
        }
        assert forall|j: int| 0 <= j < pre.len() - 1 implies #[trigger] step_ok(pre, j) by {
            assert(step_ok(path, j));
        }
        assert(is_path(g1, w, pre));
        assert(connected(g1, w, a, path[i]));
    }
    assert(is_path(g2, w, path));
}

/// Connectivity carries over to a grid in which every lit pixel stays lit.
pub proof fn lemma_connected_mono(
    g1: Seq<Seq<u32>>,
    g2: Seq<Seq<u32>>,
    w: int,
    a: (int, int),
    b: (int, int),
)
    requires
        connected(g1, w, a, b),
        forall|q: (int, int)| #[trigger] lit(g1, w, q) ==> lit(g2, w, q),
    ensures
        connected(g2, w, a, b),
{
    let path = choose|path: Seq<(int, int)>|
        #[trigger] is_path(g1, w, path) && path[0] == a && path[path.len() - 1] == b;
    assert forall|i: int| 0 <= i < path.len() implies lit(g2, w, #[trigger] path[i]) by {
        assert(lit(g1, w, path[i]));
    }
    assert(is_path(g2, w, path));
}

} // verus!
