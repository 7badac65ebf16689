//! Which files of a directory count as images.

use vstd::prelude::*;

verus! {

/// The lower-case form of an ASCII letter; any other byte as it is.
pub open spec fn ascii_lower(b: u8) -> u8 {
    if 65 <= b && b <= 90 {
        (b + 32) as u8
    } else {
        b
    }
}

/// Two byte strings are equal but for the case of their ASCII letters.
pub open spec fn same_ignoring_case(a: Seq<u8>, b: Seq<u8>) -> bool {
    &&& a.len() == b.len()
    &&& forall|i: int| 0 <= i < a.len() ==> ascii_lower(#[trigger] a[i]) == ascii_lower(b[i])
}

/// The bytes of `jpg`.
pub open spec fn jpg() -> Seq<u8> {
    seq![106u8, 112u8, 103u8]
}

/// The bytes of `jpeg`.
pub open spec fn jpeg() -> Seq<u8> {
    seq![106u8, 112u8, 101u8, 103u8]
}

/// The bytes of `png`.
pub open spec fn png() -> Seq<u8> {
    seq![112u8, 110u8, 103u8]
}

fn lower(b: u8) -> (l: u8)
    ensures
        l == ascii_lower(b),
{
    if 65 <= b && b <= 90 {
        b + 32
    } else {
        b
    }
}

fn matches_word(ext: &[u8], word: &Vec<u8>) -> (same: bool)
    ensures
        same == same_ignoring_case(ext@, word@),
{
    if ext.len() != word.len() {
        return false;
    }
    let mut i: usize = 0;
    while i < ext.len()
        invariant
            i <= ext.len(),
            ext.len() == word.len(),
            forall|k: int| 0 <= k < i ==> ascii_lower(#[trigger] ext@[k]) == ascii_lower(word@[k]),
        decreases ext.len() - i,
    {
        if lower(ext[i]) != lower(word[i]) {
            return false;
        }
        i += 1;
    }
    true
}

/// Whether a file with the extension `ext` is taken for an image: the
/// extension is `jpg`, `jpeg` or `png`, in any mix of upper and lower case.
pub fn is_image_extension(ext: &[u8]) -> (is_image: bool)
    ensures
        is_image == (same_ignoring_case(ext@, jpg()) || same_ignoring_case(ext@, jpeg())
            || same_ignoring_case(ext@, png())),
{
    let jpg_word: Vec<u8> = vec![106u8, 112u8, 103u8];
    let jpeg_word: Vec<u8> = vec![106u8, 112u8, 101u8, 103u8];
    let png_word: Vec<u8> = vec![112u8, 110u8, 103u8];
    assert(jpg_word@ =~= jpg());
    assert(jpeg_word@ =~= jpeg());
    assert(png_word@ =~= png());
    matches_word(ext, &jpg_word) || matches_word(ext, &jpeg_word) || matches_word(ext, &png_word)
}

} // verus!
