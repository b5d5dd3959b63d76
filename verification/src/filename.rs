//! Filename amounts: the last-resort numeral read from an image file's
//! name during batch aggregation.

use vstd::prelude::*;

use crate::amount::digit_run_end;
use crate::patterns::first_from;
use crate::patterns::lemma_first_from_is;
use crate::patterns::lemma_first_from_none;
use crate::text::copy_range;
use crate::text::digit_char;
use crate::text::is_digit_char;
use crate::text::matches_at;
use crate::text::seq_matches_at;

verus! {

/// One of the image extensions stands at `p`.
pub open spec fn image_ext_at(f: Seq<char>, p: int) -> bool {
    ||| matches_at(f, ".PNG"@, p)
    ||| matches_at(f, ".JPG"@, p)
    ||| matches_at(f, ".JPEG"@, p)
}

/// A filename numeral followed by an image extension starts at `i`; the
/// filename is assumed upper-cased.
pub open spec fn image_name_at(f: Seq<char>, i: int) -> bool {
    &&& 0 <= i < f.len()
    &&& is_digit_char(f[i])
    &&& (i == 0 || !is_digit_char(f[i - 1]))
    &&& {
        let j = digit_run_end(f, i);
        j < f.len() && f[j] == '.' && {
            let k = digit_run_end(f, j + 1);
            image_ext_at(f, k) || image_ext_at(f, j)
        }
    }
}

/// The numeral captured by an image filename match at `i`.
pub open spec fn image_name_capture(f: Seq<char>, i: int) -> Seq<char> {
    let j = digit_run_end(f, i);
    let k = digit_run_end(f, j + 1);
    if image_ext_at(f, k) {
        f.subrange(i, k)
    } else {
        f.subrange(i, j)
    }
}

/// The numeral preceding an image extension in the upper-cased file name.
pub open spec fn spec_image_name_amount(f: Seq<char>) -> Seq<char> {
    match first_from(|i: int| image_name_at(f, i), 0, f.len() as int) {
        Some(i) => image_name_capture(f, i),
        None => Seq::empty(),
    }
}

struct ImageExts {
    png: Vec<char>,
    jpg: Vec<char>,
    jpeg: Vec<char>,
}

impl ImageExts {
    spec fn wf(&self) -> bool {
        self.png@ == ".PNG"@ && self.jpg@ == ".JPG"@ && self.jpeg@ == ".JPEG"@
    }
}

fn image_ext_check(f: &Vec<char>, exts: &ImageExts, p: usize) -> (r: bool)
    requires
        exts.wf(),
        p <= f@.len(),
    ensures
        r == image_ext_at(f@, p as int),
{
    let n = f.len();
    if n - p >= exts.png.len() && seq_matches_at(f, &exts.png, p) {
        return true;
    }
    if n - p >= exts.jpg.len() && seq_matches_at(f, &exts.jpg, p) {
        return true;
    }
    if n - p >= exts.jpeg.len() && seq_matches_at(f, &exts.jpeg, p) {
        return true;
    }
    false
}

fn image_match(f: &Vec<char>, exts: &ImageExts, i: usize) -> (r: Option<usize>)
    requires
        exts.wf(),
        i < f@.len(),
    ensures
        match r {
            Some(e) => image_name_at(f@, i as int) && i <= e <= f@.len() && image_name_capture(
                f@,
                i as int,
            ) == f@.subrange(i as int, e as int),
            None => !image_name_at(f@, i as int),
        },
{
    let n = f.len();
    if !digit_char(f[i]) {
        return None;
    }
    if i > 0 && digit_char(f[i - 1]) {
        return None;
    }
    let j = crate::amount::digit_run_end_exec(f, i);
    if j >= n || f[j] != '.' {
        return None;
    }
    let k = crate::amount::digit_run_end_exec(f, j + 1);
    if image_ext_check(f, exts, k) {
        return Some(k);
    }
    if image_ext_check(f, exts, j) {
        return Some(j);
    }
    None
}

pub fn image_filename_amount(f: &Vec<char>) -> (r: Vec<char>)
    ensures
        r@ == spec_image_name_amount(f@),
{
    let exts = ImageExts {
        png: crate::text::chars_vec(".PNG"),
        jpg: crate::text::chars_vec(".JPG"),
        jpeg: crate::text::chars_vec(".JPEG"),
    };
    let n = f.len();
    let mut i: usize = 0;
    while i < n
        invariant
            n == f@.len(),
            exts.wf(),
            0 <= i <= n,
            forall|j: int| 0 <= j < i ==> !image_name_at(f@, j),
        decreases n - i,
    {
        match image_match(f, &exts, i) {
            Some(e) => {
                proof {
                    lemma_first_from_is(|j: int| image_name_at(f@, j), 0, n as int, i as int);
                }
                return copy_range(f, i, e);
            },
            None => {},
        }
        i += 1;
    }
    proof {
        lemma_first_from_none(|j: int| image_name_at(f@, j), 0, n as int);
    }
    Vec::new()
}

} // verus!
