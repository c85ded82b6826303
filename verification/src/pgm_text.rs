//! Text of plain (ASCII, `P2`) PGM images: from a grey-level image and from
//! a binary matrix.
use vstd::prelude::*;
use crate::grid::grid;
use crate::text::{decimal, push_decimal};

verus! {

/// `P2`, the width and height, and the maximal grey level 255, each
/// followed by its line break.
pub open spec fn pgm_header(width: nat, height: nat) -> Seq<char> {
    seq!['P', '2', '\n'] + decimal(width) + seq![' '] + decimal(height) + seq!['\n', '2', '5', '5', '\n']
}

/// Pixels `0..k` of a grey image of width `width`: each value followed by a
/// space, and a line break after every `width` pixels.
pub open spec fn gray_body(pixels: Seq<u8>, width: nat, k: int) -> Seq<char>
    decreases k,
{
    if k <= 0 {
        seq![]
    } else {
        let prev = gray_body(pixels, width, k - 1) + decimal(pixels[k - 1] as nat) + seq![' '];
        if k % (width as int) == 0 {
            prev.push('\n')
        } else {
            prev
        }
    }
}

fn push_header(s: &mut String, width: u64, height: u64)
    ensures
        final(s)@ == old(s)@ + pgm_header(width as nat, height as nat),
{
    s.append("P2\n");
    push_decimal(s, width);
    s.append(" ");
    push_decimal(s, height);
    s.append("\n255\n");
    proof {
        reveal_strlit("P2\n");
        reveal_strlit(" ");
        reveal_strlit("\n255\n");
        assert(final(s)@ =~= old(s)@ + pgm_header(width as nat, height as nat));
    }
}

/// Text of a plain PGM image of `width x height` grey levels given row by
/// row: the header, then each value followed by a space, with a line break
/// after each row.
pub fn gray_pgm_text(width: u32, height: u32, pixels: &Vec<u8>) -> (r: String)
    requires
        pixels@.len() == width * height,
    ensures
        r@ == pgm_header(width as nat, height as nat) + gray_body(pixels@, width as nat, pixels@.len() as int),
{
    let mut out = String::new();
    push_header(&mut out, width as u64, height as u64);
    let ghost head = out@;
    let mut i: usize = 0;
    while i < pixels.len()
        invariant
            i <= pixels@.len(),
            pixels@.len() == width * height,
            head == pgm_header(width as nat, height as nat),
            out@ == head + gray_body(pixels@, width as nat, i as int),
        decreases pixels@.len() - i,
    {
        proof {
            if width == 0 {
                assert(pixels@.len() == 0) by (nonlinear_arith)
                    requires
                        pixels@.len() == width * height,
                        width == 0,
                ;
            }
        }
        push_decimal(&mut out, pixels[i] as u64);
        out.append(" ");
        proof {
            reveal_strlit(" ");
        }
        if (i + 1) % (width as usize) == 0 {
            out.append("\n");
            proof {
                reveal_strlit("\n");
            }
        }
        i = i + 1;
        proof {
            assert(out@ =~= head + gray_body(pixels@, width as nat, i as int));
        }
    }
    out
}

/// Why a matrix cannot be written as a binary PGM image.
#[derive(Debug, PartialEq, Eq)]
pub enum MatrixError {
    /// The matrix has no row, or its first row is empty.
    Empty,
    /// Row `row` has `len` pixels where the first row has `expected`.
    RaggedRow { row: usize, len: usize, expected: usize },
    /// The pixel at `(row, col)` is neither 0, 1 nor 255.
    InvalidValue { value: u32, row: usize, col: usize },
}

/// A pixel value accepted in a binary matrix.
pub open spec fn is_binary_value(v: u32) -> bool {
    v == 0 || v == 1 || v == 255
}

/// The first pixel of row `i` from column `j` on that is not binary.
pub open spec fn value_problem(r: Seq<u32>, i: int, j: int) -> Option<MatrixError>
    decreases r.len() - j,
{
    if j < 0 || j >= r.len() {
        None
    } else if !is_binary_value(r[j]) {
        Some(MatrixError::InvalidValue { value: r[j], row: i as usize, col: j as usize })
    } else {
        value_problem(r, i, j + 1)
    }
}

/// The first problem found row by row from row `i` on: a row of another
/// length than `w`, then a pixel that is not binary.
pub open spec fn matrix_problem(g: Seq<Seq<u32>>, w: int, i: int) -> Option<MatrixError>
    decreases g.len() - i,
{
    if i < 0 || i >= g.len() {
        None
    } else if g[i].len() != w {
        Some(MatrixError::RaggedRow { row: i as usize, len: g[i].len() as usize, expected: w as usize })
    } else if value_problem(g[i], i, 0) is Some {
        value_problem(g[i], i, 0)
    } else {
        matrix_problem(g, w, i + 1)
    }
}

/// A binary pixel as written in the PGM text: 255 (white) for any
/// non-zero value, 0 otherwise.
pub open spec fn cell_text(v: u32) -> Seq<char> {
    if v > 0 {
        seq!['2', '5', '5']
    } else {
        seq!['0']
    }
}

/// The first `k` pixels of a row, separated by single spaces.
pub open spec fn cells_text(r: Seq<u32>, k: int) -> Seq<char>
    decreases k,
{
    if k <= 0 {
        seq![]
    } else if k == 1 {
        cell_text(r[0])
    } else {
        cells_text(r, k - 1) + seq![' '] + cell_text(r[k - 1])
    }
}

/// The first `k` rows, each one line.
pub open spec fn rows_text(g: Seq<Seq<u32>>, k: int) -> Seq<char>
    decreases k,
{
    if k <= 0 {
        seq![]
    } else {
        rows_text(g, k - 1) + cells_text(g[k - 1], g[k - 1].len() as int) + seq!['\n']
    }
}

/// What writing a binary matrix as a PGM text gives.
pub open spec fn binary_pgm_result(g: Seq<Seq<u32>>) -> Result<Seq<char>, MatrixError> {
    if g.len() == 0 || g[0].len() == 0 {
        Err(MatrixError::Empty)
    } else {
        match matrix_problem(g, g[0].len() as int, 0) {
            Some(e) => Err(e),
            None => Ok(pgm_header(g[0].len() as nat, g.len() as nat) + rows_text(g, g.len() as int)),
        }
    }
}

fn push_cell(s: &mut String, v: u32)
    ensures
        final(s)@ == old(s)@ + cell_text(v),
{
    if v > 0 {
        s.append("255");
        proof {
            reveal_strlit("255");
        }
    } else {
        s.append("0");
        proof {
            reveal_strlit("0");
        }
    }
}

/// Checks that every row has the length of the first and every pixel is 0,
/// 1 or 255, then writes the matrix as a plain PGM text in which non-zero
/// pixels are white (255) and zero pixels black (0).
pub fn binary_pgm_text(matrix: &Vec<Vec<u32>>) -> (r: Result<String, MatrixError>)
    ensures
        match binary_pgm_result(grid(*matrix)) {
            Ok(t) => r matches Ok(s) && s@ == t,
            Err(e) => r == Err::<String, MatrixError>(e),
        },
{
    let ghost g = grid(*matrix);
    if matrix.len() == 0 || matrix[0].len() == 0 {
        return Err(MatrixError::Empty);
    }
    let height = matrix.len();
    let width = matrix[0].len();
    proof {
        assert(g[0] == matrix@[0]@);
    }
    let mut i: usize = 0;
    while i < height
        invariant
            g == grid(*matrix),
            height == g.len(),
            width == g[0].len(),
            width > 0,
            i <= height,
            matrix_problem(g, width as int, i as int) == matrix_problem(g, width as int, 0),
        decreases height - i,
    {
        let row = &matrix[i];
        proof {
            assert(g[i as int] == row@);
        }
        if row.len() != width {
            return Err(MatrixError::RaggedRow { row: i, len: row.len(), expected: width });
        }
        let mut j: usize = 0;
        while j < row.len()
            invariant
                j <= row@.len(),
                g == grid(*matrix),
                height == g.len(),
                width == g[0].len(),
                width > 0,
                i < height,
                row@ == g[i as int],
                row@.len() == width,
                matrix_problem(g, width as int, i as int) == matrix_problem(g, width as int, 0),
                value_problem(row@, i as int, j as int) == value_problem(row@, i as int, 0),
            decreases row@.len() - j,
        {
            let val = row[j];
            if val != 0 && val != 1 && val != 255 {
                proof {
                    let e = MatrixError::InvalidValue { value: val, row: i, col: j };
                    assert(value_problem(row@, i as int, j as int) == Some(e));
                    assert(matrix_problem(g, width as int, i as int) == Some(e));
                    assert(binary_pgm_result(g) == Err::<Seq<char>, MatrixError>(e));
                }
                return Err(MatrixError::InvalidValue { value: val, row: i, col: j });
            }
            j = j + 1;
        }
        i = i + 1;
    }
    let mut out = String::new();
    push_header(&mut out, width as u64, height as u64);
    let ghost head = out@;
    let mut y: usize = 0;
    while y < height
        invariant
            g == grid(*matrix),
            height == g.len(),
            y <= height,
            head == pgm_header(width as nat, height as nat),
            out@ == head + rows_text(g, y as int),
        decreases height - y,
    {
        let row = &matrix[y];
        proof {
            assert(g[y as int] == row@);
        }
        let ghost before = out@;
        let mut x: usize = 0;
        while x < row.len()
            invariant
                x <= row@.len(),
                out@ == before + cells_text(row@, x as int),
            decreases row@.len() - x,
        {
            if x > 0 {
                out.append(" ");
                proof {
                    reveal_strlit(" ");
                }
            }
            push_cell(&mut out, row[x]);
            x = x + 1;
            proof {
                assert(out@ =~= before + cells_text(row@, x as int));
            }
        }
        out.append("\n");
        proof {
            reveal_strlit("\n");
        }
        y = y + 1;
        proof {
            assert(out@ =~= head + rows_text(g, y as int));
        }
    }
    Ok(out)
}

} // verus!
