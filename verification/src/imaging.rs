//! Decoding and encoding of image files (through the `image` crate) and the
//! conversions between decoded pixels, PGM texts and binary matrices.
use vstd::prelude::*;
use crate::binarisation::{binarize_pgm_text, binarize_result, PgmError};
use crate::grid::grid;
use crate::pgm_text::{gray_body, gray_pgm_text, pgm_header};

verus! {

/// What `image::load_from_memory` followed by `DynamicImage::to_luma8`
/// gives for a file's bytes: `(width, height, grey levels row by row)`, or
/// the error's message.
pub uninterp spec fn luma8_decoding(bytes: Seq<u8>) -> Result<(u32, u32, Seq<u8>), Seq<char>>;

/// What `image::load_from_memory` followed by `DynamicImage::to_rgba8`
/// gives for a file's bytes: `(width, height, RGBA bytes row by row)`, or
/// the error's message.
pub uninterp spec fn rgba8_decoding(bytes: Seq<u8>) -> Result<(u32, u32, Seq<u8>), Seq<char>>;

/// What `ImageBuffer::write_to` with `ImageFormat::Png` writes for a grey
/// image of the given size and levels, or the error's message.
pub uninterp spec fn png_encoding(width: u32, height: u32, levels: Seq<u8>) -> Result<
    Seq<u8>,
    Seq<char>,
>;

/// Decodes an image file (format guessed from its content) and converts it
/// to 8-bit grey levels with `image::load_from_memory` and
/// `DynamicImage::to_luma8`. The result is named by `luma8_decoding`; the
/// buffer of an `ImageBuffer` holds one byte per pixel.
#[verifier::external_body]
fn decode_luma8(bytes: &[u8]) -> (res: Result<(u32, u32, Vec<u8>), String>)
    ensures
        luma8_decoding(bytes@) == match res {
            Ok(t) => Ok::<(u32, u32, Seq<u8>), Seq<char>>((t.0, t.1, t.2@)),
            Err(m) => Err::<(u32, u32, Seq<u8>), Seq<char>>(m@),
        },
        res is Ok ==> res->Ok_0.2@.len() == res->Ok_0.0 * res->Ok_0.1,
{
    match image::load_from_memory(bytes) {
        Ok(img) => {
            let gray = img.to_luma8();
            let (w, h) = gray.dimensions();
            Ok((w, h, gray.into_raw()))
        },
        Err(e) => Err(e.to_string()),
    }
}

/// Decodes an image file (format guessed from its content) and converts it
/// to 8-bit RGBA with `image::load_from_memory` and `DynamicImage::to_rgba8`.
/// The result is named by `rgba8_decoding`; the buffer holds four bytes per
/// pixel.
#[verifier::external_body]
fn decode_rgba8(bytes: &[u8]) -> (res: Result<(u32, u32, Vec<u8>), String>)
    ensures
        rgba8_decoding(bytes@) == match res {
            Ok(t) => Ok::<(u32, u32, Seq<u8>), Seq<char>>((t.0, t.1, t.2@)),
            Err(m) => Err::<(u32, u32, Seq<u8>), Seq<char>>(m@),
        },
        res is Ok ==> res->Ok_0.2@.len() == 4 * res->Ok_0.0 * res->Ok_0.1,
{
    match image::load_from_memory(bytes) {
        Ok(img) => {
            let rgba = img.to_rgba8();
            let (w, h) = rgba.dimensions();
            Ok((w, h, rgba.into_raw()))
        },
        Err(e) => Err(e.to_string()),
    }
}

/// Encodes a grey image as PNG with `ImageBuffer::from_raw` and
/// `ImageBuffer::write_to(.., ImageFormat::Png)`. The result is named by
/// `png_encoding`. `from_raw` refuses a buffer of another size, hence the
/// `requires`.
#[verifier::external_body]
fn encode_png_gray(width: u32, height: u32, levels: Vec<u8>) -> (res: Result<Vec<u8>, String>)
    requires
        levels@.len() == width * height,
    ensures
        png_encoding(width, height, levels@) == match res {
            Ok(b) => Ok::<Seq<u8>, Seq<char>>(b@),
            Err(m) => Err::<Seq<u8>, Seq<char>>(m@),
        },
{
    let img = image::GrayImage::from_raw(width, height, levels).unwrap();
    let mut out = std::io::Cursor::new(Vec::new());
    match img.write_to(&mut out, image::ImageFormat::Png) {
        Ok(()) => Ok(out.into_inner()),
        Err(e) => Err(e.to_string()),
    }
}

/// Text of the plain PGM image of the grey levels of a decoded file.
pub open spec fn pgm_of_decoding(d: (u32, u32, Seq<u8>)) -> Seq<char> {
    pgm_header(d.0 as nat, d.1 as nat) + gray_body(d.2, d.0 as nat, d.2.len() as int)
}

/// Converts an image file to the text of a plain PGM image of its grey
/// levels, with its width and height; the decoder's message when the file
/// cannot be decoded.
pub fn image_to_pgm(bytes: &[u8]) -> (r: Result<(String, u32, u32), String>)
    ensures
        match luma8_decoding(bytes@) {
            Ok(d) => r matches Ok(t) && t.0@ == pgm_of_decoding(d) && t.1 == d.0 && t.2 == d.1,
            Err(m) => r matches Err(e) && e@ == m,
        },
{
    match decode_luma8(bytes) {
        Ok((w, h, levels)) => {
            let text = gray_pgm_text(w, h, &levels);
            Ok((text, w, h))
        },
        Err(e) => Err(e),
    }
}

/// Why an image file cannot be turned into a binary matrix.
#[derive(Debug)]
pub enum LoadError {
    /// The decoder's message.
    Decode(String),
    /// The image holds more than `u32::MAX` pixels.
    TooLarge,
    /// The PGM text of the image cannot be binarised.
    Pgm(PgmError),
}

/// Decodes an image file, writes it as a PGM text and binarises that text:
/// 0 (black) for the pixels darker than the threshold, 1 (white) for the
/// others.
pub fn load_binary_matrix(bytes: &[u8]) -> (r: Result<Vec<Vec<u32>>, LoadError>)
    ensures
        match luma8_decoding(bytes@) {
            Err(m) => r matches Err(LoadError::Decode(e)) && e@ == m,
            Ok(d) => if d.0 * d.1 > u32::MAX {
                r matches Err(LoadError::TooLarge)
            } else {
                match binarize_result(pgm_of_decoding(d), d.0, d.1) {
                    Ok(g) => r matches Ok(v) && grid(v) == g,
                    Err(e) => r matches Err(LoadError::Pgm(pe)) && pe == e,
                }
            },
        },
{
    match image_to_pgm(bytes) {
        Err(e) => Err(LoadError::Decode(e)),
        Ok((text, w, h)) => {
            proof {
                assert(w as u64 * h as u64 <= 0xffff_ffff_ffff_ffff) by (nonlinear_arith)
                    requires
                        w <= 0xffff_ffff,
                        h <= 0xffff_ffff,
                ;
            }
            if w as u64 * h as u64 > 0xffff_ffff {
                return Err(LoadError::TooLarge);
            }
            match binarize_pgm_text(text.as_str(), w, h) {
                Ok(m) => Ok(m),
                Err(e) => Err(LoadError::Pgm(e)),
            }
        },
    }
}

/// A pixel is light when the mean of its red, green and blue levels is at
/// least 220.
pub open spec fn is_light(r: u8, g: u8, b: u8) -> bool {
    (r as int + g as int + b as int) / 3 >= 220
}

/// The binary matrix of RGBA pixels: 1 for light pixels, 0 for the others.
pub open spec fn rgba_binarized(width: int, height: int, rgba: Seq<u8>) -> Seq<Seq<u32>> {
    Seq::new(
        height as nat,
        |y: int|
            Seq::new(
                width as nat,
                |x: int|
                    {
                        let i = 4 * (y * width + x);
                        if is_light(rgba[i], rgba[i + 1], rgba[i + 2]) {
                            1u32
                        } else {
                            0u32
                        }
                    },
            ),
    )
}

/// Binarises RGBA pixels (four bytes each, row by row): 1 where the mean of
/// red, green and blue is at least 220, 0 elsewhere.
pub fn binarize_rgba(width: u32, height: u32, rgba: &Vec<u8>) -> (r: Vec<Vec<u32>>)
    requires
        rgba@.len() == 4 * width * height,
    ensures
        grid(r) == rgba_binarized(width as int, height as int, rgba@),
{
    let ghost target = rgba_binarized(width as int, height as int, rgba@);
    let w = width as usize;
    let h = height as usize;
    let n = rgba.len();
    let mut out: Vec<Vec<u32>> = Vec::with_capacity(h);
    let mut y: usize = 0;
    while y < h
        invariant
            y <= h,
            w == width,
            h == height,
            rgba@.len() == 4 * w * h,
            n == rgba@.len(),
            target == rgba_binarized(w as int, h as int, rgba@),
            grid(out) == target.take(y as int),
        decreases h - y,
    {
        let mut row: Vec<u32> = Vec::with_capacity(w);
        let mut x: usize = 0;
        while x < w
            invariant
                x <= w,
                y < h,
                w == width,
                h == height,
                rgba@.len() == 4 * w * h,
                n == rgba@.len(),
                target == rgba_binarized(w as int, h as int, rgba@),
                row@ == target[y as int].take(x as int),
            decreases w - x,
        {
            proof {
                assert(y * w + x < w * h && 4 * (y * w + x) + 3 < 4 * w * h) by (nonlinear_arith)
                    requires
                        x < w,
                        y < h,
                ;
            }
            let i = 4 * (y * w + x);
            let luma = (rgba[i] as u32 + rgba[i + 1] as u32 + rgba[i + 2] as u32) / 3;
            row.push(if luma >= 220 { 1 } else { 0 });
            x = x + 1;
            proof {
                assert(row@ =~= target[y as int].take(x as int));
            }
        }
        proof {
            assert(row@ =~= target[y as int]);
        }
        let ghost before = grid(out);
        out.push(row);
        proof {
            assert(grid(out) =~= before.push(row@));
        }
        y = y + 1;
        proof {
            assert(grid(out) =~= target.take(y as int));
        }
    }
    proof {
        assert(target.take(h as int) =~= target);
    }
    out
}

/// Decodes an image file and binarises its RGBA pixels: 1 where the mean of
/// red, green and blue is at least 220, 0 elsewhere.
pub fn load_light_matrix(bytes: &[u8]) -> (r: Result<Vec<Vec<u32>>, String>)
    ensures
        match rgba8_decoding(bytes@) {
            Ok(d) => r matches Ok(v) && grid(v) == rgba_binarized(d.0 as int, d.1 as int, d.2),
            Err(m) => r matches Err(e) && e@ == m,
        },
{
    match decode_rgba8(bytes) {
        Ok((w, h, rgba)) => Ok(binarize_rgba(w, h, &rgba)),
        Err(e) => Err(e),
    }
}

/// Grey levels of a binary matrix drawn on a `width x height` canvas: 255
/// where a row holds a non-zero pixel, 0 elsewhere, row by row.
pub open spec fn gray_levels(g: Seq<Seq<u32>>, width: int, height: int) -> Seq<u8> {
    Seq::new(
        (width * height) as nat,
        |i: int|
            {
                let y = i / width;
                let x = i % width;
                if x < g[y].len() && g[y][x] > 0 {
                    255u8
                } else {
                    0u8
                }
            },
    )
}

/// Draws a binary matrix as grey levels on a canvas as wide as its first
/// row: 255 for non-zero pixels, 0 for the rest.
pub fn matrix_to_gray(matrix: &Vec<Vec<u32>>) -> (r: Vec<u8>)
    requires
        matrix@.len() > 0,
        matrix@.len() * matrix@[0]@.len() <= usize::MAX,
        forall|y: int| 0 <= y < matrix@.len() ==> #[trigger] matrix@[y]@.len() <= matrix@[0]@.len(),
    ensures
        r@ == gray_levels(grid(*matrix), matrix@[0]@.len() as int, matrix@.len() as int),
{
    let ghost g = grid(*matrix);
    let width = matrix[0].len();
    let height = matrix.len();
    let ghost target = gray_levels(g, width as int, height as int);
    let mut out: Vec<u8> = Vec::with_capacity(height * width);
    let mut y: usize = 0;
    while y < height
        invariant
            y <= height,
            g == grid(*matrix),
            width == matrix@[0]@.len(),
            height == matrix@.len(),
            height * width <= usize::MAX,
            target == gray_levels(g, width as int, height as int),
            out@ == target.take((y * width) as int),
        decreases height - y,
    {
        let row = &matrix[y];
        proof {
            assert(g[y as int] == row@);
        }
        let mut x: usize = 0;
        while x < width
            invariant
                x <= width,
                y < height,
                g == grid(*matrix),
                width == matrix@[0]@.len(),
                height == matrix@.len(),
                height * width <= usize::MAX,
                row@ == g[y as int],
                target == gray_levels(g, width as int, height as int),
                out@ == target.take((y * width + x) as int),
            decreases width - x,
        {
            proof {
                assert(y * width + x < height * width) by (nonlinear_arith)
                    requires
                        x < width,
                        y < height,
                ;
                let k = (y * width + x) as int;
                assert(k / (width as int) == y && k % (width as int) == x) by (nonlinear_arith)
                    requires
                        k == y * width + x,
                        x < width,
                ;
            }
            let level: u8 = if x < row.len() && row[x] > 0 { 255 } else { 0 };
            out.push(level);
            x = x + 1;
            proof {
                assert(out@ =~= target.take((y * width + x) as int));
            }
        }
        y = y + 1;
        proof {
            assert((y - 1) * width + width == y * width) by (nonlinear_arith);
        }
    }
    proof {
        assert(width * height == height * width) by (nonlinear_arith);
        assert(target.take((height * width) as int) =~= target);
    }
    out
}

/// Why a binary matrix cannot be saved as a PNG file.
#[derive(Debug)]
pub enum SaveError {
    /// The matrix has no row, or its first row is empty.
    Empty,
    /// The canvas does not fit the `u32` sizes of the encoder.
    TooLarge,
    /// The encoder's message.
    Encode(String),
}

/// Encodes a binary matrix as a PNG image: the canvas is as wide as the
/// first row, non-zero pixels are white (255) and the others black.
pub fn matrix_to_png(matrix: &Vec<Vec<u32>>) -> (r: Result<Vec<u8>, SaveError>)
    requires
        matrix@.len() > 0 ==> forall|y: int|
            0 <= y < matrix@.len() ==> #[trigger] matrix@[y]@.len() <= matrix@[0]@.len(),
    ensures
        matrix@.len() == 0 || matrix@[0]@.len() == 0 ==> r matches Err(SaveError::Empty),
        matrix@.len() > 0 && matrix@[0]@.len() > 0 ==> ({
            let w = matrix@[0]@.len() as int;
            let h = matrix@.len() as int;
            if w * h > u32::MAX {
                r matches Err(SaveError::TooLarge)
            } else {
                match png_encoding(w as u32, h as u32, gray_levels(grid(*matrix), w, h)) {
                    Ok(b) => r matches Ok(v) && v@ == b,
                    Err(m) => r matches Err(SaveError::Encode(e)) && e@ == m,
                }
            }
        }),
{
    if matrix.len() == 0 || matrix[0].len() == 0 {
        return Err(SaveError::Empty);
    }
    let width = matrix[0].len();
    let height = matrix.len();
    let too_large = if width > 0xffff_ffff || height > 0xffff_ffff {
        true
    } else {
        proof {
            assert(width as u64 * height as u64 <= 0xffff_ffff_ffff_ffff) by (nonlinear_arith)
                requires
                    width <= 0xffff_ffff,
                    height <= 0xffff_ffff,
            ;
        }
        width as u64 * height as u64 > 0xffff_ffff
    };
    if too_large {
        proof {
            if width <= 0xffff_ffff && height <= 0xffff_ffff {
            } else if width > 0xffff_ffff {
                assert(width * height > u32::MAX) by (nonlinear_arith)
                    requires
                        width > 0xffff_ffff,
                        height >= 1,
                ;
            } else {
                assert(width * height > u32::MAX) by (nonlinear_arith)
                    requires
                        height > 0xffff_ffff,
                        width >= 1,
                ;
            }
        }
        return Err(SaveError::TooLarge);
    }
    let levels = matrix_to_gray(matrix);
    match encode_png_gray(width as u32, height as u32, levels) {
        Ok(b) => Ok(b),
        Err(e) => Err(SaveError::Encode(e)),
    }
}

} // verus!
