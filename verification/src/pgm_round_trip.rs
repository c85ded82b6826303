//! Reading back a written PGM text: the binariser finds the header and the
//! grey levels that the writer put in, and gives a written binary matrix
//! back as bits.
use vstd::prelude::*;
use crate::binarisation::{
    binarize_result, binarized, first_visible, header_end, is_header_line, lemma_token_end_bounds,
    line_end, token_end, values_from,
};
use crate::pgm_text::{
    binary_pgm_result, cell_text, cells_text, gray_body, matrix_problem, pgm_header, rows_text,
};
use crate::text::{
    all_digits, decimal, digits_value, is_digit, is_white_space, lemma_decimal_digits,
    lemma_parse_decimal, parse_u32, unsigned_digits,
};

verus! {

proof fn lemma_line_end_at(s: Seq<char>, pos: int, e: int)
    requires
        0 <= pos < e <= s.len(),
        s[e - 1] == '\n',
        forall|i: int| pos <= i < e - 1 ==> s[i] != '\n',
    ensures
        line_end(s, pos) == e,
    decreases e - pos,
{
    if pos < e - 1 {
        lemma_line_end_at(s, pos + 1, e);
    }
}

proof fn lemma_token_end_at(s: Seq<char>, i: int, e: int)
    requires
        0 <= i <= e < s.len(),
        forall|j: int| i <= j < e ==> !is_white_space(#[trigger] s[j]),
        is_white_space(s[e]),
    ensures
        token_end(s, i) == e,
    decreases e - i,
{
    if i < e {
        lemma_token_end_at(s, i + 1, e);
    }
}

/// The text of pixel `k`: its level, a space, and a line break at the end
/// of a row.
pub open spec fn pixel_text(pixels: Seq<u8>, width: nat, k: int) -> Seq<char> {
    decimal(pixels[k] as nat) + seq![' '] + if (k + 1) % (width as int) == 0 {
        seq!['\n']
    } else {
        Seq::<char>::empty()
    }
}

proof fn lemma_gray_body_step(pixels: Seq<u8>, width: nat, k: int)
    requires
        0 <= k,
    ensures
        gray_body(pixels, width, k + 1) == gray_body(pixels, width, k) + pixel_text(pixels, width, k),
{
    let prev = gray_body(pixels, width, k) + decimal(pixels[k] as nat) + seq![' '];
    if (k + 1) % (width as int) == 0 {
        assert(prev.push('\n') =~= gray_body(pixels, width, k) + pixel_text(pixels, width, k));
    } else {
        assert(prev =~= gray_body(pixels, width, k) + pixel_text(pixels, width, k));
    }
}

proof fn lemma_gray_body_prefix(pixels: Seq<u8>, width: nat, k: int, m: int)
    requires
        0 <= k <= m,
    ensures
        gray_body(pixels, width, k).len() <= gray_body(pixels, width, m).len(),
        gray_body(pixels, width, m).take(gray_body(pixels, width, k).len() as int) == gray_body(
            pixels,
            width,
            k,
        ),
    decreases m - k,
{
    if k < m {
        lemma_gray_body_prefix(pixels, width, k, m - 1);
        lemma_gray_body_step(pixels, width, m - 1);
        let a = gray_body(pixels, width, k);
        let b = gray_body(pixels, width, m - 1);
        let c = gray_body(pixels, width, m);
        assert(c.take(a.len() as int) =~= b.take(a.len() as int));
    } else {
        let a = gray_body(pixels, width, k);
        assert(a.take(a.len() as int) =~= a);
    }
}

/// From the start of pixel `k` on, the text holds the levels of pixels
/// `k..n`.
proof fn lemma_values_of_body(head: Seq<char>, pixels: Seq<u8>, width: nat, k: int)
    requires
        0 <= k <= pixels.len(),
        width > 0,
    ensures
        values_from(
            head + gray_body(pixels, width, pixels.len() as int),
            (head.len() + gray_body(pixels, width, k).len()) as int,
        ) == pixels.subrange(k, pixels.len() as int).map_values(|v: u8| v as u32),
    decreases pixels.len() - k,
{
    let n = pixels.len() as int;
    let s = head + gray_body(pixels, width, n);
    let i: int = (head.len() + gray_body(pixels, width, k).len()) as int;
    lemma_gray_body_prefix(pixels, width, k, n);
    if k == n {
        assert(i == s.len());
        assert(pixels.subrange(k, n).map_values(|v: u8| v as u32) =~= Seq::<u32>::empty());
    } else {
        lemma_values_of_body(head, pixels, width, k + 1);
        lemma_gray_body_step(pixels, width, k);
        lemma_gray_body_prefix(pixels, width, k + 1, n);
        let seg = pixel_text(pixels, width, k);
        let dec = decimal(pixels[k] as nat);
        let body_k1 = gray_body(pixels, width, k + 1);
        let body_n = gray_body(pixels, width, n);
        let next: int = (head.len() + body_k1.len()) as int;
        assert(next == i + seg.len());
        // the segment of pixel k sits at i in s
        assert forall|j: int| 0 <= j < seg.len() implies s[i + j] == #[trigger] seg[j] by {
            assert(body_n.take(body_k1.len() as int) == body_k1);
            assert(body_k1[gray_body(pixels, width, k).len() as int + j] == seg[j]);
            assert(s[i + j] == body_n[gray_body(pixels, width, k).len() as int + j]);
        }
        lemma_decimal_digits(pixels[k] as nat);
        lemma_parse_decimal(pixels[k] as nat);
        let dl: int = dec.len() as int;
        let e: int = i + dl;
        assert(seg[dl] == ' ');
        assert(s[e] == ' ');
        assert forall|j: int| i <= j < e implies !is_white_space(#[trigger] s[j]) by {
            assert(s[j] == seg[j - i]);
            assert(seg[j - i] == dec[j - i]);
        }
        lemma_token_end_at(s, i, e);
        assert forall|j: int| 0 <= j < dl implies #[trigger] s.subrange(i, e)[j] == dec[j] by {
            assert(s[i + j] == seg[j]);
            assert(seg[j] == dec[j]);
        }
        assert(s.subrange(i, e) =~= dec);
        assert(values_from(s, i) == seq![pixels[k] as u32] + values_from(s, e));
        assert(values_from(s, e) == values_from(s, e + 1));
        if (k + 1) % (width as int) == 0 {
            assert(s[e + 1] == seg[dl + 1]);
            assert(values_from(s, e + 1) == values_from(s, e + 2));
            assert(next == e + 2);
        } else {
            assert(next == e + 1);
        }
        assert(pixels.subrange(k, n).map_values(|v: u8| v as u32) =~= seq![pixels[k] as u32]
            + pixels.subrange(k + 1, n).map_values(|v: u8| v as u32));
    }
}

/// The three header lines of a written PGM text end where the header ends,
/// whatever follows it.
proof fn lemma_pgm_header_end(width: nat, height: nat, body: Seq<char>)
    ensures
        header_end(pgm_header(width, height) + body, 0, 3) == Some(
            pgm_header(width, height).len() as int,
        ),
{
    let dw = decimal(width);
    let dh = decimal(height);
    let head = pgm_header(width, height);
    let text = head + body;
    lemma_decimal_digits(width);
    lemma_decimal_digits(height);
    let l1 = seq!['P', '2', '\n'];
    let l2 = dw + seq![' '] + dh + seq!['\n'];
    let l3 = seq!['2', '5', '5', '\n'];
    assert(head =~= l1 + l2 + l3);
    assert(text =~= l1 + l2 + l3 + body);
    let e1 = 3int;
    let e2: int = 3 + l2.len() as int;
    let e3: int = e2 + 4;
    // first line
    assert(text[0] == 'P' && text[1] == '2' && text[2] == '\n');
    lemma_line_end_at(text, 0, e1);
    assert(first_visible(text, 0, e1) == Some('P'));
    assert(is_header_line(text, 0, e1));
    // second line
    assert forall|j: int| 0 <= j < l2.len() implies text[3 + j] == #[trigger] l2[j] by {}
    assert forall|j: int| 0 <= j < l2.len() - 1 implies #[trigger] l2[j] != '\n' by {
        if j < dw.len() {
            assert(l2[j] == dw[j]);
            assert(!is_white_space(dw[j]));
        } else if j > dw.len() {
            assert(l2[j] == dh[j - dw.len() - 1]);
            assert(!is_white_space(dh[j - dw.len() - 1]));
        }
    }
    assert forall|i: int| e1 <= i < e2 - 1 implies text[i] != '\n' by {
        assert(text[i] == l2[i - 3]);
    }
    assert(text[e2 - 1] == l2[l2.len() - 1]);
    lemma_line_end_at(text, e1, e2);
    assert(text[3] == dw[0]);
    assert(!is_white_space(dw[0]));
    assert(first_visible(text, e1, e2) == Some(dw[0]));
    assert(is_header_line(text, e1, e2));
    // third line
    assert(text[e2] == '2' && text[e2 + 1] == '5' && text[e2 + 2] == '5' && text[e2 + 3] == '\n');
    lemma_line_end_at(text, e2, e3);
    assert(first_visible(text, e2, e3) == Some('2'));
    assert(is_header_line(text, e2, e3));
    assert(head.len() == e3);
    assert(header_end(text, e3, 0) == Some(e3));
    assert(header_end(text, e2, 1) == Some(e3));
    assert(header_end(text, e1, 2) == Some(e3));
    assert(header_end(text, 0, 3) == Some(e3));
}

/// Reading back the PGM text of a grey image: the three header lines end
/// where the header ends, and the values that follow are the grey levels,
/// in order.
pub proof fn law_gray_pgm_read_back(width: u32, height: u32, pixels: Seq<u8>)
    requires
        pixels.len() == width * height,
        width > 0,
    ensures
        ({
            let head = pgm_header(width as nat, height as nat);
            let text = head + gray_body(pixels, width as nat, pixels.len() as int);
            &&& header_end(text, 0, 3) == Some(head.len() as int)
            &&& values_from(text, head.len() as int) == pixels.map_values(|v: u8| v as u32)
        }),
{
    let head = pgm_header(width as nat, height as nat);
    lemma_pgm_header_end(width as nat, height as nat, gray_body(pixels, width as nat, pixels.len() as int));
    lemma_values_of_body(head, pixels, width as nat, 0);
    assert(gray_body(pixels, width as nat, 0).len() == 0);
    assert(pixels.subrange(0, pixels.len() as int) =~= pixels);
}

/// Binarising the PGM text of a grey image of at most `u32::MAX` pixels
/// thresholds its grey levels.
pub proof fn law_gray_pgm_binarisation(width: u32, height: u32, pixels: Seq<u8>)
    requires
        pixels.len() == width * height,
        width * height <= u32::MAX,
        width > 0,
    ensures
        binarize_result(
            pgm_header(width as nat, height as nat) + gray_body(pixels, width as nat, pixels.len() as int),
            width,
            height,
        ) == Ok::<Seq<Seq<u32>>, crate::binarisation::PgmError>(
            binarized(pixels.map_values(|v: u8| v as u32), width as int, height as int),
        ),
{
    law_gray_pgm_read_back(width, height, pixels);
}

/// Binarising the PGM text of a grey image gives, at every pixel, 0 when
/// its grey level is below 220 (dark) and 1 otherwise, in a matrix of
/// `height` rows of `width` pixels.
pub proof fn law_gray_pgm_levels_threshold(width: u32, height: u32, pixels: Seq<u8>)
    requires
        pixels.len() == width * height,
        width * height <= u32::MAX,
        width > 0,
    ensures
        binarize_result(
            pgm_header(width as nat, height as nat) + gray_body(pixels, width as nat, pixels.len() as int),
            width,
            height,
        ) matches Ok(m) && m.len() == height && (forall|y: int|
            0 <= y < height ==> #[trigger] m[y].len() == width) && (forall|y: int, x: int|
            0 <= y < height && 0 <= x < width ==> #[trigger] m[y][x] == if pixels[y * width + x] < 220 {
                0u32
            } else {
                1u32
            }),
{
    law_gray_pgm_binarisation(width, height, pixels);
    let values = pixels.map_values(|v: u8| v as u32);
    let m = binarized(values, width as int, height as int);
    assert forall|y: int, x: int| 0 <= y < height && 0 <= x < width implies #[trigger] m[y][x] == if pixels[y
        * width + x] < 220 {
        0u32
    } else {
        1u32
    } by {
        assert(0 <= y * width + x < width * height) by (nonlinear_arith)
            requires
                0 <= y < height,
                0 <= x < width,
        ;
        assert(values[y * width + x] == pixels[y * width + x] as u32);
    }
}

proof fn lemma_token_end_shift(a: Seq<char>, b: Seq<char>, j: int)
    requires
        0 <= j <= b.len(),
    ensures
        token_end(a + b, a.len() + j) == a.len() + token_end(b, j),
    decreases b.len() - j,
{
    let s = a + b;
    if j < b.len() {
        assert(s[a.len() + j] == b[j]);
        if !is_white_space(b[j]) {
            lemma_token_end_shift(a, b, j + 1);
        }
    }
}

/// The values read in `a + b` from the start of `b` on are those of `b`.
proof fn lemma_values_shift(a: Seq<char>, b: Seq<char>, j: int)
    requires
        0 <= j <= b.len(),
    ensures
        values_from(a + b, a.len() + j) == values_from(b, j),
    decreases b.len() - j,
{
    let s = a + b;
    let i = a.len() + j;
    if j < b.len() {
        assert(s[i] == b[j]);
        if is_white_space(b[j]) {
            lemma_values_shift(a, b, j + 1);
        } else {
            lemma_token_end_shift(a, b, j);
            lemma_token_end_bounds(b, j);
            let e = token_end(b, j);
            assert(s.subrange(i, a.len() + e) =~= b.subrange(j, e));
            lemma_values_shift(a, b, e);
        }
    }
}

/// `x` and `y` meet at white space: no word runs from one into the other.
pub open spec fn meet_at_space(x: Seq<char>, y: Seq<char>) -> bool {
    x.len() == 0 || y.len() == 0 || is_white_space(x.last()) || is_white_space(y[0])
}

proof fn lemma_token_end_prefix(x: Seq<char>, y: Seq<char>, i: int)
    requires
        meet_at_space(x, y),
        0 <= i < x.len(),
    ensures
        token_end(x + y, i) == token_end(x, i),
    decreases x.len() - i,
{
    let s = x + y;
    assert(s[i] == x[i]);
    if !is_white_space(x[i]) {
        if i + 1 < x.len() {
            lemma_token_end_prefix(x, y, i + 1);
        } else {
            assert(x.last() == x[i]);
            if y.len() > 0 {
                assert(s[i + 1] == y[0]);
            }
            assert(token_end(s, i + 1) == i + 1);
            assert(token_end(x, i + 1) == i + 1);
        }
    }
}

proof fn lemma_values_split_from(x: Seq<char>, y: Seq<char>, i: int)
    requires
        meet_at_space(x, y),
        0 <= i <= x.len(),
    ensures
        values_from(x + y, i) == values_from(x, i) + values_from(y, 0),
    decreases x.len() - i,
{
    let s = x + y;
    if i == x.len() {
        lemma_values_shift(x, y, 0);
        assert(values_from(x, i) + values_from(y, 0) =~= values_from(y, 0));
    } else {
        assert(s[i] == x[i]);
        if is_white_space(x[i]) {
            lemma_values_split_from(x, y, i + 1);
        } else {
            lemma_token_end_prefix(x, y, i);
            lemma_token_end_bounds(x, i);
            let e = token_end(x, i);
            assert(s.subrange(i, e) =~= x.subrange(i, e));
            lemma_values_split_from(x, y, e);
            match parse_u32(x.subrange(i, e)) {
                Some(v) => {
                    assert((seq![v] + values_from(x, e)) + values_from(y, 0) =~= seq![v] + (
                    values_from(x, e) + values_from(y, 0)));
                },
                None => {},
            }
        }
    }
}

/// Texts that meet at white space are read one after the other.
proof fn lemma_values_split(x: Seq<char>, y: Seq<char>)
    requires
        meet_at_space(x, y),
    ensures
        values_from(x + y, 0) == values_from(x, 0) + values_from(y, 0),
{
    lemma_values_split_from(x, y, 0);
}

proof fn lemma_blank_values(c: char)
    requires
        is_white_space(c),
    ensures
        values_from(seq![c], 0) == Seq::<u32>::empty(),
{
    assert(values_from(seq![c], 1) == Seq::<u32>::empty());
}

/// The level that the PGM text of a binary matrix gives a pixel: 255 for
/// any non-zero value, 0 otherwise.
pub open spec fn cell_value(v: u32) -> u32 {
    if v > 0 {
        255
    } else {
        0
    }
}

proof fn lemma_cell_values(v: u32)
    ensures
        values_from(cell_text(v), 0) == seq![cell_value(v)],
{
    let t = cell_text(v);
    if v > 0 {
        assert(token_end(t, 3) == 3);
        assert(token_end(t, 2) == 3);
        assert(token_end(t, 1) == 3);
        assert(token_end(t, 0) == 3);
        assert(t.subrange(0, 3) =~= t);
        let t2 = seq!['2'];
        let t25 = seq!['2', '5'];
        assert(t2.drop_last() =~= Seq::<char>::empty());
        assert(t25.drop_last() =~= t2);
        assert(t.drop_last() =~= t25);
        assert(('2' as u32) - ('0' as u32) == 2);
        assert(('5' as u32) - ('0' as u32) == 5);
        assert(t2.last() == '2');
        assert(t25.last() == '5');
        assert(t.last() == '5');
        assert(digits_value(t2.drop_last()) == 0);
        assert(digits_value(t2) == 2);
        assert(digits_value(t25) == 25);
        assert(digits_value(t) == 255);
        assert(unsigned_digits(t) == t);
        assert(all_digits(t)) by {
            assert forall|i: int| 0 <= i < t.len() implies is_digit(#[trigger] t[i]) by {}
        }
        assert(parse_u32(t) == Some(255u32));
        assert(values_from(t, 3) == Seq::<u32>::empty());
    } else {
        assert(token_end(t, 1) == 1);
        assert(token_end(t, 0) == 1);
        assert(t.subrange(0, 1) =~= t);
        assert(t.drop_last() =~= Seq::<char>::empty());
        assert(('0' as u32) - ('0' as u32) == 0);
        assert(t.last() == '0');
        assert(digits_value(t.drop_last()) == 0);
        assert(digits_value(t) == 0);
        assert(unsigned_digits(t) == t);
        assert(all_digits(t)) by {
            assert forall|i: int| 0 <= i < t.len() implies is_digit(#[trigger] t[i]) by {}
        }
        assert(parse_u32(t) == Some(0u32));
        assert(values_from(t, 1) == Seq::<u32>::empty());
    }
}

proof fn lemma_cells_values(r: Seq<u32>, k: int)
    requires
        0 <= k <= r.len(),
    ensures
        values_from(cells_text(r, k), 0) == r.take(k).map_values(|v: u32| cell_value(v)),
    decreases k,
{
    if k == 0 {
        assert(r.take(0).map_values(|v: u32| cell_value(v)) =~= Seq::<u32>::empty());
    } else if k == 1 {
        lemma_cell_values(r[0]);
        assert(r.take(1).map_values(|v: u32| cell_value(v)) =~= seq![cell_value(r[0])]);
    } else {
        lemma_cells_values(r, k - 1);
        let prev = cells_text(r, k - 1);
        let c = cell_text(r[k - 1]);
        lemma_cell_values(r[k - 1]);
        lemma_blank_values(' ');
        assert((prev + seq![' ']).last() == ' ');
        lemma_values_split(prev + seq![' '], c);
        lemma_values_split(prev, seq![' ']);
        assert(values_from(prev, 0) + Seq::<u32>::empty() =~= values_from(prev, 0));
        assert(r.take(k).map_values(|v: u32| cell_value(v)) =~= r.take(k - 1).map_values(
            |v: u32| cell_value(v),
        ).push(cell_value(r[k - 1])));
    }
}

/// The levels of rows `0..k`, row after row.
pub open spec fn rows_values(g: Seq<Seq<u32>>, k: int) -> Seq<u32>
    decreases k,
{
    if k <= 0 {
        seq![]
    } else {
        rows_values(g, k - 1) + g[k - 1].map_values(|v: u32| cell_value(v))
    }
}

proof fn lemma_rows_values(g: Seq<Seq<u32>>, k: int)
    requires
        0 <= k <= g.len(),
    ensures
        values_from(rows_text(g, k), 0) == rows_values(g, k),
    decreases k,
{
    if k == 0 {
        assert(values_from(rows_text(g, 0), 0) == Seq::<u32>::empty());
    } else {
        lemma_rows_values(g, k - 1);
        let prev = rows_text(g, k - 1);
        let r = g[k - 1];
        let cells = cells_text(r, r.len() as int);
        let line = cells + seq!['\n'];
        assert(rows_text(g, k) =~= prev + line);
        if k - 1 > 0 {
            assert(prev.last() == '\n');
        }
        lemma_values_split(prev, line);
        lemma_values_split(cells, seq!['\n']);
        lemma_blank_values('\n');
        lemma_cells_values(r, r.len() as int);
        assert(r.take(r.len() as int) =~= r);
        assert(values_from(cells, 0) + Seq::<u32>::empty() =~= values_from(cells, 0));
    }
}

proof fn lemma_rows_values_index(g: Seq<Seq<u32>>, w: int, k: int)
    requires
        0 <= k <= g.len(),
        w >= 0,
        forall|y: int| 0 <= y < g.len() ==> #[trigger] g[y].len() == w,
    ensures
        rows_values(g, k).len() == k * w,
        forall|y: int, x: int|
            0 <= y < k && 0 <= x < w ==> rows_values(g, k)[y * w + x] == cell_value(
                #[trigger] g[y][x],
            ),
    decreases k,
{
    if k == 0 {
        assert(0 * w == 0);
    } else {
        lemma_rows_values_index(g, w, k - 1);
        let prev = rows_values(g, k - 1);
        let last = g[k - 1].map_values(|v: u32| cell_value(v));
        assert(g[k - 1].len() == w);
        assert((k - 1) * w + w == k * w) by (nonlinear_arith);
        assert(rows_values(g, k) == prev + last);
        assert(rows_values(g, k).len() == k * w);
        assert forall|y: int, x: int| 0 <= y < k && 0 <= x < w implies rows_values(g, k)[y * w
            + x] == cell_value(#[trigger] g[y][x]) by {
            if y < k - 1 {
                assert(y * w + x < (k - 1) * w) by (nonlinear_arith)
                    requires
                        0 <= y < k - 1,
                        0 <= x < w,
                ;
                assert(0 <= y * w) by (nonlinear_arith)
                    requires
                        0 <= y,
                        0 <= w,
                ;
            } else {
                assert(y * w == (k - 1) * w);
                assert(rows_values(g, k)[y * w + x] == last[x]);
            }
        }
    }
}

/// 1 for the non-zero (white) pixels, 0 for the zero (black) ones.
pub open spec fn white_bits(g: Seq<Seq<u32>>) -> Seq<Seq<u32>> {
    Seq::new(
        g.len(),
        |y: int| Seq::new(g[y].len(), |x: int| if g[y][x] == 0 { 0u32 } else { 1u32 }),
    )
}

proof fn lemma_rows_of_width(g: Seq<Seq<u32>>, w: int, i: int)
    requires
        0 <= i,
        matrix_problem(g, w, i) is None,
    ensures
        forall|y: int| i <= y < g.len() ==> #[trigger] g[y].len() == w,
    decreases g.len() - i,
{
    if i < g.len() {
        lemma_rows_of_width(g, w, i + 1);
    }
}

/// Writing a binary matrix as a PGM text and binarising that text gives
/// the matrix back, each pixel as a bit: zero pixels, written black, stay 0,
/// and the others, written white, become 1. This holds of every matrix that
/// can be written and has at most `u32::MAX` pixels.
pub proof fn law_binary_pgm_binarisation(g: Seq<Seq<u32>>)
    requires
        binary_pgm_result(g) is Ok,
        g.len() * g[0].len() <= u32::MAX,
    ensures
        binary_pgm_result(g) matches Ok(t) && binarize_result(t, g[0].len() as u32, g.len() as u32)
            == Ok::<Seq<Seq<u32>>, crate::binarisation::PgmError>(white_bits(g)),
{
    let w = g[0].len() as int;
    let h = g.len() as int;
    assert(w * h <= u32::MAX) by (nonlinear_arith)
        requires
            h * w <= u32::MAX,
    ;
    assert(w <= w * h) by (nonlinear_arith)
        requires
            h >= 1,
            w >= 1,
    ;
    assert(h <= w * h) by (nonlinear_arith)
        requires
            h >= 1,
            w >= 1,
    ;
    let head = pgm_header(w as nat, h as nat);
    let body = rows_text(g, h);
    let t = head + body;
    assert(binary_pgm_result(g) == Ok::<Seq<char>, crate::pgm_text::MatrixError>(t));
    lemma_rows_of_width(g, w, 0);
    lemma_pgm_header_end(w as nat, h as nat, body);
    lemma_values_shift(head, body, 0);
    lemma_rows_values(g, h);
    lemma_rows_values_index(g, w, h);
    let values = rows_values(g, h);
    assert(values_from(t, head.len() as int) == values);
    assert(values.len() == h * w);
    let b = binarized(values, w, h);
    assert(binarize_result(t, w as u32, h as u32) == Ok::<Seq<Seq<u32>>, crate::binarisation::PgmError>(b));
    let inv = white_bits(g);
    assert forall|y: int| 0 <= y < h implies #[trigger] b[y] =~= inv[y] by {
        assert forall|x: int| 0 <= x < w implies b[y][x] == inv[y][x] by {
            assert(values[y * w + x] == cell_value(g[y][x]));
        }
    }
    assert(b =~= inv);
}

} // verus!
