//! The file extensions of the images that can be opened, compared without
//! regard to the case of ASCII letters.
use vstd::prelude::*;
use crate::text::chars_of;

verus! {

/// Code point of `c` once an ASCII capital is put in lower case.
pub open spec fn ascii_lower(c: char) -> u32 {
    if 0x41 <= (c as u32) <= 0x5a {
        ((c as u32) + 32) as u32
    } else {
        c as u32
    }
}

/// Code points of `s` with its ASCII capitals in lower case.
pub open spec fn ascii_lower_seq(s: Seq<char>) -> Seq<u32> {
    s.map_values(|c: char| ascii_lower(c))
}

/// Code points of `s`.
pub open spec fn code_points(s: Seq<char>) -> Seq<u32> {
    s.map_values(|c: char| c as u32)
}

/// Extensions of the images that can be converted to PGM.
pub open spec fn convertible_extensions() -> Seq<Seq<char>> {
    seq!["png"@, "jpg"@, "jpeg"@, "bmp"@, "gif"@]
}

/// The extension is one of `names` once its ASCII capitals are in lower
/// case.
pub open spec fn lowered_among(ext: Seq<char>, names: Seq<Seq<char>>) -> bool {
    exists|k: int| 0 <= k < names.len() && ascii_lower_seq(ext) == code_points(#[trigger] names[k])
}

/// Extensions of the images that the client accepts.
pub open spec fn loadable_extensions() -> Seq<Seq<char>> {
    seq!["png"@, "jpg"@, "jpeg"@, "bmp"@, "gif"@, "tiff"@, "webp"@]
}

fn lower_char(c: char) -> (r: u32)
    ensures
        r == ascii_lower(c),
{
    let u = c as u32;
    if 0x41 <= u && u <= 0x5a {
        u + 32
    } else {
        u
    }
}

/// Whether `ext`, with its ASCII capitals in lower case, equals `name`.
fn same_lowered(ext: &Vec<char>, name: &str) -> (b: bool)
    ensures
        b == (ascii_lower_seq(ext@) == code_points(name@)),
{
    let n: Vec<char> = chars_of(name);
    if ext.len() != n.len() {
        proof {
            assert(ascii_lower_seq(ext@).len() != code_points(name@).len());
        }
        return false;
    }
    let mut i: usize = 0;
    while i < ext.len()
        invariant
            i <= ext@.len(),
            ext@.len() == n@.len(),
            n@ == name@,
            forall|j: int| 0 <= j < i ==> ascii_lower(#[trigger] ext@[j]) == n@[j] as u32,
        decreases ext@.len() - i,
    {
        if lower_char(ext[i]) != n[i] as u32 {
            proof {
                assert(ascii_lower_seq(ext@)[i as int] != code_points(name@)[i as int]);
            }
            return false;
        }
        i = i + 1;
    }
    proof {
        assert(ascii_lower_seq(ext@) =~= code_points(name@));
    }
    true
}

/// Whether `ext` is one of `names` once its ASCII letters are in lower case.
fn lowered_in(ext: &Vec<char>, names: &[&str]) -> (b: bool)
    ensures
        b == exists|k: int|
            0 <= k < names@.len() && ascii_lower_seq(ext@) == code_points(#[trigger] names@[k]@),
{
    let mut k: usize = 0;
    while k < names.len()
        invariant
            k <= names@.len(),
            forall|j: int| 0 <= j < k ==> ascii_lower_seq(ext@) != code_points(#[trigger] names@[j]@),
        decreases names@.len() - k,
    {
        if same_lowered(ext, names[k]) {
            return true;
        }
        k = k + 1;
    }
    false
}

/// Whether an image with this extension can be converted to PGM: `png`,
/// `jpg`, `jpeg`, `bmp` or `gif`, in any case of its ASCII letters.
pub fn is_convertible_extension(ext: &str) -> (b: bool)
    ensures
        b == lowered_among(ext@, convertible_extensions()),
{
    let e: Vec<char> = chars_of(ext);
    let names: [&str; 5] = ["png", "jpg", "jpeg", "bmp", "gif"];
    let found = lowered_in(&e, &names);
    proof {
        let l = convertible_extensions();
        assert(names@.map_values(|s: &str| s@) =~= l);
        if found {
            let k = choose|k: int|
                0 <= k < names@.len() && ascii_lower_seq(e@) == code_points(#[trigger] names@[k]@);
            assert(l[k] == names@[k]@);
        }
        if lowered_among(ext@, l) {
            let k = choose|k: int| 0 <= k < l.len() && ascii_lower_seq(ext@) == code_points(#[trigger] l[k]);
            assert(names@[k]@ == l[k]);
        }
    }
    found
}

/// Whether the client accepts an image with this extension: `png`, `jpg`,
/// `jpeg`, `bmp`, `gif`, `tiff` or `webp`, in any case of its ASCII
/// letters.
pub fn is_loadable_extension(ext: &str) -> (b: bool)
    ensures
        b == lowered_among(ext@, loadable_extensions()),
{
    let e: Vec<char> = chars_of(ext);
    let names: [&str; 7] = ["png", "jpg", "jpeg", "bmp", "gif", "tiff", "webp"];
    let found = lowered_in(&e, &names);
    proof {
        let l = loadable_extensions();
        assert(names@.map_values(|s: &str| s@) =~= l);
        if found {
            let k = choose|k: int|
                0 <= k < names@.len() && ascii_lower_seq(e@) == code_points(#[trigger] names@[k]@);
            assert(l[k] == names@[k]@);
        }
        if lowered_among(ext@, l) {
            let k = choose|k: int| 0 <= k < l.len() && ascii_lower_seq(ext@) == code_points(#[trigger] l[k]);
            assert(names@[k]@ == l[k]);
        }
    }
    found
}

} // verus!
