//! Where rendered diagrams are written: one file per diagram, numbered when
//! a source holds several, and PNG instead of SVG for a `.png` path.
use crate::text::{ascii_lower, chars_of, eq_str, to_ascii_lower};
use vstd::prelude::*;

verus! {

/// std's `Path::file_stem` of the path the text names: the file name
/// without its extension. For a given target platform (its path separator
/// rules) it depends on the text alone.
pub uninterp spec fn path_file_stem(p: Seq<char>) -> Option<Seq<char>>;

/// std's `Path::extension` of the path the text names: what follows the
/// last `.` of the file name. For a given target platform (its path
/// separator rules) it depends on the text alone.
pub uninterp spec fn path_extension(p: Seq<char>) -> Option<Seq<char>>;

/// std's `Path::with_file_name`: the path with its file name replaced by
/// `name`. For a given target platform (its path separator rules) it
/// depends on the two texts alone.
pub uninterp spec fn path_with_file_name(p: Seq<char>, name: Seq<char>) -> Seq<char>;

pub open spec fn opt_text_view(o: Option<String>) -> Option<Seq<char>> {
    match o {
        Some(s) => Some(s@),
        None => None,
    }
}

/// std's `Path::file_stem`; its result is named [`path_file_stem`].
#[verifier::external_body]
fn file_stem(p: &str) -> (r: Option<String>)
    ensures
        opt_text_view(r) == path_file_stem(p@),
{
    match std::path::Path::new(p).file_stem() {
        Some(s) => Some(s.to_string_lossy().into_owned()),
        None => None,
    }
}

/// std's `Path::extension`; its result is named [`path_extension`].
#[verifier::external_body]
fn extension(p: &str) -> (r: Option<String>)
    ensures
        opt_text_view(r) == path_extension(p@),
{
    match std::path::Path::new(p).extension() {
        Some(s) => Some(s.to_string_lossy().into_owned()),
        None => None,
    }
}

/// std's `Path::with_file_name`; its result is named [`path_with_file_name`].
#[verifier::external_body]
fn with_file_name(p: &str, name: &str) -> (r: String)
    ensures
        r@ == path_with_file_name(p@, name@),
{
    std::path::Path::new(p).with_file_name(name).to_string_lossy().into_owned()
}

/// The decimal digit `d`.
pub open spec fn spec_digit(d: nat) -> char {
    if d == 0 {
        '0'
    } else if d == 1 {
        '1'
    } else if d == 2 {
        '2'
    } else if d == 3 {
        '3'
    } else if d == 4 {
        '4'
    } else if d == 5 {
        '5'
    } else if d == 6 {
        '6'
    } else if d == 7 {
        '7'
    } else if d == 8 {
        '8'
    } else {
        '9'
    }
}

/// `n` written in decimal, without leading zeros.
pub open spec fn decimal(n: nat) -> Seq<char>
    decreases n,
{
    if n < 10 {
        seq![spec_digit(n)]
    } else {
        decimal(n / 10).push(spec_digit(n % 10))
    }
}

fn digit(d: usize) -> (c: char)
    requires
        d < 10,
    ensures
        c == spec_digit(d as nat),
{
    if d == 0 {
        '0'
    } else if d == 1 {
        '1'
    } else if d == 2 {
        '2'
    } else if d == 3 {
        '3'
    } else if d == 4 {
        '4'
    } else if d == 5 {
        '5'
    } else if d == 6 {
        '6'
    } else if d == 7 {
        '7'
    } else if d == 8 {
        '8'
    } else {
        '9'
    }
}

pub(crate) fn decimal_chars(n: usize) -> (r: Vec<char>)
    ensures
        r@ == decimal(n as nat),
    decreases n,
{
    if n < 10 {
        let mut v: Vec<char> = Vec::new();
        v.push(digit(n));
        assert(v@ =~= seq![spec_digit(n as nat)]);
        v
    } else {
        let mut v = decimal_chars(n / 10);
        v.push(digit(n % 10));
        v
    }
}

/// The name a diagram's output file gets. With one diagram it is `path`
/// itself. With several, diagram `index` (counted from 0) goes to
/// `stem-N.ext` beside `path`, where `N` is `index + 1` in decimal, `stem`
/// is the file stem of `path` (empty when it has none) and `.ext` its
/// extension (nothing when it has none).
pub open spec fn spec_output_path(path: Seq<char>, index: nat, count: nat) -> Seq<char> {
    if count > 1 {
        let stem = match path_file_stem(path) {
            Some(s) => s,
            None => Seq::<char>::empty(),
        };
        let ext = match path_extension(path) {
            Some(e) => seq!['.'] + e,
            None => Seq::<char>::empty(),
        };
        path_with_file_name(path, stem + seq!['-'] + decimal(index + 1) + ext)
    } else {
        path
    }
}

/// See [`spec_output_path`].
pub fn output_path(path: &str, index: usize, count: usize) -> (r: String)
    requires
        index < count,
    ensures
        r@ == spec_output_path(path@, index as nat, count as nat),
{
    if count > 1 {
        let mut name: Vec<char> = match file_stem(path) {
            Some(s) => chars_of(s.as_str()),
            None => Vec::new(),
        };
        let ghost stem = name@;
        name.push('-');
        let mut num = decimal_chars(index + 1);
        let ghost numv = num@;
        name.append(&mut num);
        let ghost ext: Seq<char> = Seq::<char>::empty();
        match extension(path) {
            Some(e) => {
                name.push('.');
                let mut ec = chars_of(e.as_str());
                proof {
                    ext = seq!['.'] + ec@;
                }
                name.append(&mut ec);
            },
            None => {},
        }
        assert(name@ =~= stem + seq!['-'] + numv + ext);
        let n = crate::text::string_of(name.as_slice());
        with_file_name(path, n.as_str())
    } else {
        path.to_owned()
    }
}

/// Whether output to `p` is PNG: its extension is `png` in any case.
pub open spec fn spec_is_png(p: Seq<char>) -> bool {
    match path_extension(p) {
        Some(e) => ascii_lower(e) == "png"@,
        None => false,
    }
}

/// See [`spec_is_png`].
pub fn is_png_path(p: &str) -> (r: bool)
    ensures
        r == spec_is_png(p@),
{
    match extension(p) {
        Some(e) => {
            let c = chars_of(e.as_str());
            let l = to_ascii_lower(c.as_slice());
            eq_str(l.as_slice(), "png")
        },
        None => false,
    }
}

} // verus!
