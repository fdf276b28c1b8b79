use vstd::prelude::*;
use crate::color::same_letter;

verus! {

/// A file name whose extension is `svg` in any case: it ends in `.svg` and has
/// something before that dot (a bare `.svg` is a hidden file with no extension).
pub open spec fn has_svg_extension(name: Seq<char>) -> bool {
    let n = name.len();
    &&& n > 4
    &&& same_letter(name[n - 4], '.')
    &&& same_letter(name[n - 3], 's')
    &&& same_letter(name[n - 2], 'v')
    &&& same_letter(name[n - 1], 'g')
}

/// Whether a file of this name is a vector image, matched by its extension.
pub fn is_svg_name(file_name: &str) -> (r: bool)
    ensures
        r == has_svg_extension(file_name@),
{
    let n = file_name.unicode_len();
    if n <= 4 {
        return false;
    }
    let a = file_name.get_char(n - 4) as u32;
    let b = file_name.get_char(n - 3) as u32;
    let c = file_name.get_char(n - 2) as u32;
    let d = file_name.get_char(n - 1) as u32;
    a == 46 && (b == 115 || b == 83) && (c == 118 || c == 86) && (d == 103 || d == 71)
}

} // verus!
