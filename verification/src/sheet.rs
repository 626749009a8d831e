//! Contact sheets: a grid of thumbnails per file, so rips can be identified
//! at a glance instead of watched. The library names the sheet; the command
//! line draws it.

use vstd::prelude::*;
use vstd::string::*;

use crate::paths::{self, file_name_range, last_dot_in, parent_end_exec};
use crate::text::chars_of;

verus! {

/// `base/name`, with a `/` only where `base` does not end in one
/// (`PathBuf::push` of a relative name).
pub open spec fn join_path(base: Seq<char>, name: Seq<char>) -> Seq<char> {
    if base.len() > 0 && base.last() != '/' {
        base + "/"@ + name
    } else {
        base + name
    }
}

/// The sheet of `input`: its file name replaced by `<stem>_sheet.png`
/// (`Path::with_file_name`), or that name added when it has none.
pub open spec fn output_path_spec(input: Seq<char>) -> Seq<char> {
    let stem = match paths::file_stem(input) {
        Some(s) => s,
        None => Seq::empty(),
    };
    let base = match paths::file_name_bounds(input) {
        Some((a, b)) => input.subrange(0, paths::parent_end(input, a)),
        None => input,
    };
    join_path(base, stem + "_sheet.png"@)
}

/// `title_01.mkv` -> `title_01_sheet.png`, alongside the input.
pub fn output_path(input: &str) -> (r: String)
    ensures
        r@ == output_path_spec(input@),
{
    let cs = chars_of(input);
    let (base, stem) = match file_name_range(&cs) {
        Some((a, b)) => {
            proof {
                paths::lemma_last_component(cs@);
                paths::lemma_parent_end(cs@, a as int);
                paths::lemma_last_dot(cs@.subrange(a as int, b as int), (b - a) as int);
            }
            let ghost n = cs@.subrange(a as int, b as int);
            let stem_end = match last_dot_in(&cs, a, b) {
                Some(d) if d > a => d,
                _ => b,
            };
            assert(n.subrange(0, stem_end - a) =~= cs@.subrange(a as int, stem_end as int));
            assert(paths::file_stem(input@) == Some(cs@.subrange(a as int, stem_end as int)));
            let e = parent_end_exec(&cs, a);
            (input.substring_char(0, e), input.substring_char(a, stem_end))
        },
        None => (input, input.substring_char(0, 0)),
    };
    let mut out = String::from_str(base);
    let bc = chars_of(base);
    if bc.len() > 0 && bc[bc.len() - 1] != '/' {
        out.append("/");
    }
    out.append(stem);
    out.append("_sheet.png");
    proof {
        if paths::file_name_bounds(input@) is None {
            assert(input@.subrange(0, 0) =~= Seq::<char>::empty());
        }
    }
    out
}

} // verus!
