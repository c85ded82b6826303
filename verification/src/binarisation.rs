//! Binarisation of a plain (ASCII) PGM image: the header is skipped, the
//! pixel values are read and each one is compared with a threshold.
use vstd::prelude::*;
use crate::grid::grid;
use crate::text::{chars_of, is_white_space, parse_u32, parse_u32_at, white_space};

verus! {

/// Pixels darker than this become 0 (black), the others 1 (white).
pub const DARK_THRESHOLD: u32 = 220;

/// Why a PGM text cannot be binarised.
#[derive(Debug, PartialEq, Eq)]
pub enum PgmError {
    /// The text ends before three header lines (lines that are not blank and
    /// do not start with `#`).
    HeaderIncomplete,
    /// Fewer pixel values than `width * height`.
    NotEnoughPixels { expected: u32, found: usize },
}

/// End of the line that starts at `pos`: just after its `'\n'`, or the end
/// of the text.
pub open spec fn line_end(s: Seq<char>, pos: int) -> int
    decreases s.len() - pos,
{
    if pos >= s.len() {
        s.len() as int
    } else if s[pos] == '\n' {
        pos + 1
    } else {
        line_end(s, pos + 1)
    }
}

/// The first character of `s[i..e]` that is not white space.
pub open spec fn first_visible(s: Seq<char>, i: int, e: int) -> Option<char>
    decreases e - i,
{
    if i >= e {
        None
    } else if !is_white_space(s[i]) {
        Some(s[i])
    } else {
        first_visible(s, i + 1, e)
    }
}

/// The line `s[b..e]` counts as a header line: once trimmed, it is not
/// empty and does not start with `#`.
pub open spec fn is_header_line(s: Seq<char>, b: int, e: int) -> bool {
    first_visible(s, b, e) matches Some(c) && c != '#'
}

pub proof fn lemma_line_end_bounds(s: Seq<char>, pos: int)
    requires
        0 <= pos < s.len(),
    ensures
        pos < line_end(s, pos) <= s.len(),
    decreases s.len() - pos,
{
    if s[pos] != '\n' {
        if pos + 1 < s.len() {
            lemma_line_end_bounds(s, pos + 1);
        } else {
            assert(line_end(s, pos + 1) == s.len());
        }
    }
}

/// Position just after the `need` next header lines read from `pos` line
/// by line, or `None` when the text ends first.
pub open spec fn header_end(s: Seq<char>, pos: int, need: nat) -> Option<int>
    decreases s.len() - pos,
{
    if need == 0 {
        Some(pos)
    } else if pos < 0 || pos >= s.len() {
        None
    } else {
        let e = line_end(s, pos);
        proof {
            lemma_line_end_bounds(s, pos);
        }
        header_end(s, e, if is_header_line(s, pos, e) { (need - 1) as nat } else { need })
    }
}

/// End of the run of visible characters that starts at `i`.
pub open spec fn token_end(s: Seq<char>, i: int) -> int
    decreases s.len() - i,
{
    if i >= s.len() || is_white_space(s[i]) {
        i
    } else {
        token_end(s, i + 1)
    }
}

pub proof fn lemma_token_end_bounds(s: Seq<char>, i: int)
    requires
        0 <= i <= s.len(),
    ensures
        i <= token_end(s, i) <= s.len(),
        i < s.len() && !is_white_space(s[i]) ==> i < token_end(s, i),
    decreases s.len() - i,
{
    if i < s.len() && !is_white_space(s[i]) {
        lemma_token_end_bounds(s, i + 1);
    }
}

/// The values of the white-space separated words of `s` from `i` on that
/// parse as `u32`, in order; the other words are skipped.
pub open spec fn values_from(s: Seq<char>, i: int) -> Seq<u32>
    decreases s.len() - i,
{
    if i < 0 || i >= s.len() {
        seq![]
    } else if is_white_space(s[i]) {
        values_from(s, i + 1)
    } else {
        let e = token_end(s, i);
        proof {
            lemma_token_end_bounds(s, i);
        }
        match parse_u32(s.subrange(i, e)) {
            Some(v) => seq![v] + values_from(s, e),
            None => values_from(s, e),
        }
    }
}

/// The `height` rows of `width` pixels: 0 (black) where the value is below
/// the threshold, 1 (white) elsewhere.
pub open spec fn binarized(values: Seq<u32>, width: int, height: int) -> Seq<Seq<u32>> {
    Seq::new(
        height as nat,
        |y: int|
            Seq::new(
                width as nat,
                |x: int| if values[y * width + x] < DARK_THRESHOLD { 0u32 } else { 1u32 },
            ),
    )
}

/// What binarising the PGM text gives.
pub open spec fn binarize_result(s: Seq<char>, width: u32, height: u32) -> Result<Seq<Seq<u32>>, PgmError> {
    match header_end(s, 0, 3) {
        None => Err(PgmError::HeaderIncomplete),
        Some(h) => {
            let values = values_from(s, h);
            if values.len() < width * height {
                Err(PgmError::NotEnoughPixels { expected: (width * height) as u32, found: values.len() as usize })
            } else {
                Ok(binarized(values, width as int, height as int))
            }
        },
    }
}

/// Position after the three header lines of the text.
fn skip_header(s: &Vec<char>) -> (r: Option<usize>)
    ensures
        r matches Some(p) ==> header_end(s@, 0, 3) == Some(p as int) && p <= s@.len(),
        r is None ==> header_end(s@, 0, 3) is None,
{
    let mut pos: usize = 0;
    let mut need: usize = 3;
    while need > 0
        invariant
            pos <= s@.len(),
            need <= 3,
            header_end(s@, pos as int, need as nat) == header_end(s@, 0, 3),
        decreases s@.len() - pos, need,
    {
        if pos >= s.len() {
            return None;
        }
        let mut e = pos;
        while e < s.len() && s[e] != '\n'
            invariant
                pos <= e <= s@.len(),
                line_end(s@, e as int) == line_end(s@, pos as int),
            decreases s@.len() - e,
        {
            e = e + 1;
        }
        if e < s.len() {
            e = e + 1;
        }
        proof {
            assert(e == line_end(s@, pos as int));
        }
        let mut i = pos;
        while i < e && white_space(s[i])
            invariant
                pos <= i <= e,
                e <= s@.len(),
                first_visible(s@, i as int, e as int) == first_visible(s@, pos as int, e as int),
            decreases e - i,
        {
            i = i + 1;
        }
        let counts = i < e && s[i] != '#';
        proof {
            assert(counts == is_header_line(s@, pos as int, e as int));
        }
        if counts {
            need = need - 1;
        }
        pos = e;
    }
    Some(pos)
}

/// The pixel values that follow the header, as `values_from` reads them.
fn read_values(s: &Vec<char>, start: usize) -> (r: Vec<u32>)
    requires
        start <= s@.len(),
    ensures
        r@ == values_from(s@, start as int),
{
    let mut out: Vec<u32> = Vec::new();
    let mut i = start;
    while i < s.len()
        invariant
            start <= i <= s@.len(),
            out@ + values_from(s@, i as int) == values_from(s@, start as int),
        decreases s@.len() - i,
    {
        if white_space(s[i]) {
            i = i + 1;
        } else {
            let mut e = i;
            while e < s.len() && !white_space(s[e])
                invariant
                    i <= e <= s@.len(),
                    token_end(s@, e as int) == token_end(s@, i as int),
                decreases s@.len() - e,
            {
                e = e + 1;
            }
            proof {
                lemma_token_end_bounds(s@, i as int);
            }
            let parsed = parse_u32_at(s, i, e);
            match parsed {
                Some(v) => {
                    proof {
                        assert(out@.push(v) + values_from(s@, e as int) =~= out@ + (seq![v]
                            + values_from(s@, e as int)));
                    }
                    out.push(v);
                },
                None => {},
            }
            i = e;
        }
    }
    proof {
        assert(out@ + values_from(s@, i as int) =~= out@);
    }
    out
}

/// Binarises the text of a plain PGM image of `width * height` pixels: the
/// first three header lines are skipped, the following words that are
/// numbers are the pixel values, row by row, and a pixel darker than
/// `DARK_THRESHOLD` becomes 0 (black), any other 1 (white). Fails when the header is
/// incomplete or when there are fewer than `width * height` values.
pub fn binarize_pgm_text(content: &str, width: u32, height: u32) -> (r: Result<
    Vec<Vec<u32>>,
    PgmError,
>)
    requires
        width * height <= u32::MAX,
    ensures
        match binarize_result(content@, width, height) {
            Ok(m) => r matches Ok(v) && grid(v) == m,
            Err(e) => r == Err::<Vec<Vec<u32>>, PgmError>(e),
        },
{
    let s = chars_of(content);
    let start = match skip_header(&s) {
        None => {
            return Err(PgmError::HeaderIncomplete);
        },
        Some(p) => p,
    };
    let pixels = read_values(&s, start);
    let total = width * height;
    if pixels.len() < total as usize {
        return Err(PgmError::NotEnoughPixels { expected: total, found: pixels.len() });
    }
    let ghost target = binarized(pixels@, width as int, height as int);
    let w = width as usize;
    let h = height as usize;
    let mut matrix: Vec<Vec<u32>> = Vec::with_capacity(h);
    let mut y: usize = 0;
    while y < h
        invariant
            y <= h,
            h == height,
            w == width,
            w * h <= u32::MAX,
            pixels@.len() >= w * h,
            target == binarized(pixels@, w as int, h as int),
            grid(matrix) == target.take(y as int),
        decreases h - y,
    {
        let mut row: Vec<u32> = Vec::with_capacity(w);
        let mut x: usize = 0;
        while x < w
            invariant
                x <= w,
                y < h,
                h == height,
                w == width,
                w * h <= u32::MAX,
                pixels@.len() >= w * h,
                target == binarized(pixels@, w as int, h as int),
                row@ == target[y as int].take(x as int),
            decreases w - x,
        {
            proof {
                assert(y * w + x < w * h) by (nonlinear_arith)
                    requires
                        x < w,
                        y < h,
                ;
            }
            let index = y * w + x;
            let pixel_value = pixels[index];
            let binary_pixel: u32 = if pixel_value < DARK_THRESHOLD { 0 } else { 1 };
            row.push(binary_pixel);
            x = x + 1;
            proof {
                assert(row@ =~= target[y as int].take(x as int));
            }
        }
        proof {
            assert(row@ =~= target[y as int]);
        }
        let ghost before = grid(matrix);
        matrix.push(row);
        proof {
            assert(grid(matrix) =~= before.push(row@));
        }
        y = y + 1;
        proof {
            assert(grid(matrix) =~= target.take(y as int));
        }
    }
    proof {
        assert(target.take(h as int) =~= target);
    }
    Ok(matrix)
}

} // verus!
