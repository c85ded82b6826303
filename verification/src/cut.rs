//! Cropping of a matrix to a rectangle.
use vstd::prelude::*;
use crate::grid::grid;
use crate::matrix::copy_matrix;

verus! {

/// The rectangle `[x, xmax) x [y, ymax)` is a non-empty part of the window
/// of width `w` and height `h`.
pub open spec fn is_crop_rect(x: int, y: int, xmax: int, ymax: int, w: int, h: int) -> bool {
    x < xmax && y < ymax && xmax <= w && ymax <= h
}

/// The rows `y..ymax` of `g`, each cut to the columns `x..xmax`.
pub open spec fn cropped(g: Seq<Seq<u32>>, x: int, y: int, xmax: int, ymax: int) -> Seq<Seq<u32>> {
    Seq::new((ymax - y) as nat, |j: int| Seq::new((xmax - x) as nat, |i: int| g[j + y][i + x]))
}

/// Cuts the matrix to the columns `x..xmax` of the rows `y..ymax`. An empty
/// matrix gives an empty one, and a rectangle that is empty or leaves the
/// window of width `matrix[0].len()` gives an unchanged copy.
pub fn reduce_bin(matrix: &Vec<Vec<u32>>, x: usize, y: usize, xmax: usize, ymax: usize) -> (r: Vec<
    Vec<u32>,
>)
    requires
        matrix@.len() > 0 && is_crop_rect(
            x as int,
            y as int,
            xmax as int,
            ymax as int,
            matrix@[0]@.len() as int,
            matrix@.len() as int,
        ) ==> forall|j: int| y <= j < ymax ==> #[trigger] matrix@[j]@.len() >= xmax,
    ensures
        matrix@.len() == 0 || matrix@[0]@.len() == 0 ==> r@.len() == 0,
        matrix@.len() > 0 && matrix@[0]@.len() > 0 ==> grid(r) == if is_crop_rect(
            x as int,
            y as int,
            xmax as int,
            ymax as int,
            matrix@[0]@.len() as int,
            matrix@.len() as int,
        ) {
            cropped(grid(*matrix), x as int, y as int, xmax as int, ymax as int)
        } else {
            grid(*matrix)
        },
{
    if matrix.len() == 0 || matrix[0].len() == 0 {
        return Vec::new();
    }
    let height = matrix.len();
    let width = matrix[0].len();
    if x >= xmax || y >= ymax || xmax > width || ymax > height {
        return copy_matrix(matrix);
    }
    let h = ymax - y;
    let w = xmax - x;
    let ghost target = cropped(grid(*matrix), x as int, y as int, xmax as int, ymax as int);
    let mut new_matrix: Vec<Vec<u32>> = Vec::with_capacity(h);
    let mut j: usize = 0;
    while j < h
        invariant
            j <= h,
            h == ymax - y,
            w == xmax - x,
            ymax <= matrix@.len(),
            forall|jj: int| y <= jj < ymax ==> #[trigger] matrix@[jj]@.len() >= xmax,
            target == cropped(grid(*matrix), x as int, y as int, xmax as int, ymax as int),
            grid(new_matrix) == target.take(j as int),
        decreases h - j,
    {
        let src = &matrix[j + y];
        proof {
            assert(grid(*matrix)[j + y] == src@);
        }
        let mut row: Vec<u32> = Vec::with_capacity(w);
        let mut i: usize = 0;
        while i < w
            invariant
                i <= w,
                j < h,
                h == ymax - y,
                ymax <= matrix@.len(),
                w == xmax - x,
                src@.len() >= xmax,
                src@ == grid(*matrix)[j + y],
                target == cropped(grid(*matrix), x as int, y as int, xmax as int, ymax as int),
                row@ == target[j as int].take(i as int),
            decreases w - i,
        {
            row.push(src[i + x]);
            i = i + 1;
            proof {
                assert(row@ =~= target[j as int].take(i as int));
            }
        }
        proof {
            assert(row@ =~= target[j as int]);
        }
        let ghost before = grid(new_matrix);
        new_matrix.push(row);
        proof {
            assert(grid(new_matrix) =~= before.push(row@));
        }
        j = j + 1;
        proof {
            assert(grid(new_matrix) =~= target.take(j as int));
        }
    }
    proof {
        assert(target.take(h as int) =~= target);
    }
    new_matrix
}

/// Cropping a rectangular matrix to its whole window gives it back.
pub proof fn law_crop_whole(g: Seq<Seq<u32>>)
    requires
        g.len() > 0,
        forall|y: int| 0 <= y < g.len() ==> #[trigger] g[y].len() == g[0].len(),
    ensures
        cropped(g, 0, 0, g[0].len() as int, g.len() as int) == g,
{
    let c = cropped(g, 0, 0, g[0].len() as int, g.len() as int);
    assert forall|j: int| 0 <= j < g.len() implies #[trigger] c[j] =~= g[j] by {}
    assert(c =~= g);
}

/// Cropping a crop is cropping once: the rectangle `[x2, xmax2) x [y2,
/// ymax2)` of the crop to `[x, xmax) x [y, ymax)` is the rectangle of the
/// matrix moved by `(x, y)`.
pub proof fn law_crop_of_crop(
    g: Seq<Seq<u32>>,
    x: int,
    y: int,
    xmax: int,
    ymax: int,
    x2: int,
    y2: int,
    xmax2: int,
    ymax2: int,
)
    requires
        x <= xmax,
        y <= ymax,
        0 <= x2 <= xmax2 <= xmax - x,
        0 <= y2 <= ymax2 <= ymax - y,
    ensures
        cropped(cropped(g, x, y, xmax, ymax), x2, y2, xmax2, ymax2) == cropped(
            g,
            x + x2,
            y + y2,
            x + xmax2,
            y + ymax2,
        ),
{
    let a = cropped(cropped(g, x, y, xmax, ymax), x2, y2, xmax2, ymax2);
    let b = cropped(g, x + x2, y + y2, x + xmax2, y + ymax2);
    assert forall|j: int| 0 <= j < a.len() implies #[trigger] a[j] =~= b[j] by {}
    assert(a =~= b);
}

} // verus!
