//! Small constructors for matrices of pixels.
use vstd::prelude::*;
use crate::grid::grid;

verus! {

/// A row of `n` pixels, all of value `v`.
pub fn filled_row(n: usize, v: u32) -> (r: Vec<u32>)
    ensures
        r@ == Seq::new(n as nat, |i: int| v),
{
    let mut r: Vec<u32> = Vec::with_capacity(n);
    let mut i: usize = 0;
    while i < n
        invariant
            i <= n,
            r@ == Seq::new(i as nat, |j: int| v),
        decreases n - i,
    {
        r.push(v);
        i = i + 1;
        assert(r@ =~= Seq::new(i as nat, |j: int| v));
    }
    r
}

/// A matrix of `rows` rows of `cols` pixels, all of value `v`.
pub fn filled_matrix(rows: usize, cols: usize, v: u32) -> (m: Vec<Vec<u32>>)
    ensures
        grid(m) == Seq::new(rows as nat, |y: int| Seq::new(cols as nat, |x: int| v)),
{
    let mut m: Vec<Vec<u32>> = Vec::with_capacity(rows);
    let mut i: usize = 0;
    while i < rows
        invariant
            i <= rows,
            grid(m) == Seq::new(i as nat, |y: int| Seq::new(cols as nat, |x: int| v)),
        decreases rows - i,
    {
        let row = filled_row(cols, v);
        let ghost before = grid(m);
        m.push(row);
        assert(grid(m) =~= before.push(row@));
        i = i + 1;
        assert(grid(m) =~= Seq::new(i as nat, |y: int| Seq::new(cols as nat, |x: int| v)));
    }
    m
}

/// A copy of a row.
pub fn copy_row(r: &Vec<u32>) -> (c: Vec<u32>)
    ensures
        c@ == r@,
{
    let mut c: Vec<u32> = Vec::with_capacity(r.len());
    let mut i: usize = 0;
    while i < r.len()
        invariant
            i <= r.len(),
            c@ == r@.take(i as int),
        decreases r.len() - i,
    {
        c.push(r[i]);
        i = i + 1;
        assert(c@ =~= r@.take(i as int));
    }
    assert(r@.take(r.len() as int) =~= r@);
    c
}

/// A copy of a matrix, row by row.
pub fn copy_matrix(m: &Vec<Vec<u32>>) -> (c: Vec<Vec<u32>>)
    ensures
        grid(c) == grid(*m),
{
    let mut c: Vec<Vec<u32>> = Vec::with_capacity(m.len());
    let mut i: usize = 0;
    while i < m.len()
        invariant
            i <= m.len(),
            grid(c) == grid(*m).take(i as int),
        decreases m.len() - i,
    {
        let row = copy_row(&m[i]);
        let ghost before = grid(c);
        c.push(row);
        assert(grid(c) =~= before.push(row@));
        i = i + 1;
        assert(grid(c) =~= grid(*m).take(i as int));
    }
    assert(grid(*m).take(m.len() as int) =~= grid(*m));
    c
}

} // verus!
