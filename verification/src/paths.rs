//! The parts of a `/`-separated path that the library reads, as
//! `std::path::Path` finds them on Unix: the file name, its extension and
//! stem, and the parent.

use vstd::prelude::*;
use vstd::string::*;

use crate::text::chars_of;

verus! {

/// Where the components start: after a leading `/`, or after a leading `.`
/// that stands alone as the first component.
pub open spec fn body_start(p: Seq<char>) -> int {
    if p.len() > 0 && p[0] == '/' {
        1
    } else if p.len() > 0 && p[0] == '.' && (p.len() == 1 || p[1] == '/') {
        1
    } else {
        0
    }
}

/// Start of the last piece of `p[lo..hi]`: one past its last `/`, or `lo`.
pub open spec fn piece_start(p: Seq<char>, lo: int, hi: int) -> int
    decreases hi - lo,
{
    if hi <= lo {
        lo
    } else if p[hi - 1] == '/' {
        hi
    } else {
        piece_start(p, lo, hi - 1)
    }
}

/// A piece that names no component: empty (between two `/`) or `.`.
pub open spec fn is_skipped(piece: Seq<char>) -> bool {
    piece.len() == 0 || piece == seq!['.']
}

/// The end of `p[..hi]` once trailing pieces that name no component are
/// dropped, each with the `/` before it; never below `lo`.
pub open spec fn trim_back(p: Seq<char>, lo: int, hi: int) -> int
    decreases hi - lo,
{
    if hi <= lo {
        hi
    } else {
        let a = piece_start(p, lo, hi);
        if is_skipped(p.subrange(a, hi)) {
            proof {
                lemma_piece_start_le(p, lo, hi);
            }
            trim_back(p, lo, if a > lo { a - 1 } else { lo })
        } else {
            hi
        }
    }
}

pub proof fn lemma_piece_start_le(p: Seq<char>, lo: int, hi: int)
    ensures
        hi >= lo ==> piece_start(p, lo, hi) <= hi,
    decreases hi - lo,
{
    if hi > lo && p[hi - 1] != '/' {
        lemma_piece_start_le(p, lo, hi - 1);
    }
}

/// Bounds of the last component of `p`, when there is one.
pub open spec fn last_component(p: Seq<char>) -> Option<(int, int)> {
    let lo = body_start(p);
    let e = trim_back(p, lo, p.len() as int);
    if e <= lo {
        None
    } else {
        Some((piece_start(p, lo, e), e))
    }
}

/// Bounds of the file name (`Path::file_name`): the last component, unless it is `..`.
pub open spec fn file_name_bounds(p: Seq<char>) -> Option<(int, int)> {
    match last_component(p) {
        Some((a, b)) => if p.subrange(a, b) == seq!['.', '.'] {
            None
        } else {
            Some((a, b))
        },
        None => None,
    }
}

pub open spec fn file_name(p: Seq<char>) -> Option<Seq<char>> {
    match file_name_bounds(p) {
        Some((a, b)) => Some(p.subrange(a, b)),
        None => None,
    }
}

/// Index of the last `.` in `n[..hi]`, or -1.
pub open spec fn last_dot(n: Seq<char>, hi: int) -> int
    decreases hi,
{
    if hi <= 0 {
        -1
    } else if n[hi - 1] == '.' {
        hi - 1
    } else {
        last_dot(n, hi - 1)
    }
}

/// The extension of a file name: what follows its last `.`, unless that dot
/// is the first character or there is none.
pub open spec fn name_extension(n: Seq<char>) -> Option<Seq<char>> {
    let d = last_dot(n, n.len() as int);
    if d <= 0 {
        None
    } else {
        Some(n.subrange(d + 1, n.len() as int))
    }
}

/// The stem of a file name: what precedes its last `.`, or all of it.
pub open spec fn name_stem(n: Seq<char>) -> Seq<char> {
    let d = last_dot(n, n.len() as int);
    if d <= 0 {
        n
    } else {
        n.subrange(0, d)
    }
}

/// `Path::extension`.
pub open spec fn extension(p: Seq<char>) -> Option<Seq<char>> {
    match file_name(p) {
        Some(n) => name_extension(n),
        None => None,
    }
}

/// `Path::file_stem`.
pub open spec fn file_stem(p: Seq<char>) -> Option<Seq<char>> {
    match file_name(p) {
        Some(n) => Some(name_stem(n)),
        None => None,
    }
}

/// End of the parent of a path whose last component starts at `a`
/// (`Path::parent`): the path before that component, without trailing pieces
/// that name no component.
pub open spec fn parent_end(p: Seq<char>, a: int) -> int {
    let lo = body_start(p);
    trim_back(p, lo, if a > lo { a - 1 } else { lo })
}

proof fn lemma_piece_start(p: Seq<char>, lo: int, hi: int)
    requires
        0 <= lo <= hi <= p.len(),
    ensures
        lo <= piece_start(p, lo, hi) <= hi,
        piece_start(p, lo, hi) > lo ==> p[piece_start(p, lo, hi) - 1] == '/',
        forall|k: int| piece_start(p, lo, hi) <= k < hi ==> p[k] != '/',
    decreases hi - lo,
{
    if hi > lo && p[hi - 1] != '/' {
        lemma_piece_start(p, lo, hi - 1);
    }
}

proof fn lemma_trim_back(p: Seq<char>, lo: int, hi: int)
    requires
        0 <= lo <= hi <= p.len(),
    ensures
        lo <= trim_back(p, lo, hi) <= hi,
    decreases hi - lo,
{
    if hi > lo {
        lemma_piece_start(p, lo, hi);
        let a = piece_start(p, lo, hi);
        if is_skipped(p.subrange(a, hi)) {
            lemma_trim_back(p, lo, if a > lo { a - 1 } else { lo });
        }
    }
}

pub proof fn lemma_last_component(p: Seq<char>)
    ensures
        last_component(p) matches Some((a, b)) ==> 0 <= a <= b <= p.len() && body_start(p) <= a
            && !is_skipped(p.subrange(a, b)) && forall|k: int| a <= k < b ==> p[k] != '/',
{
    let lo = body_start(p);
    lemma_trim_back(p, lo, p.len() as int);
    let e = trim_back(p, lo, p.len() as int);
    if e > lo {
        lemma_piece_start(p, lo, e);
        lemma_trim_back_piece(p, lo, p.len() as int);
    }
}

proof fn lemma_trim_back_piece(p: Seq<char>, lo: int, hi: int)
    requires
        0 <= lo <= hi <= p.len(),
        trim_back(p, lo, hi) > lo,
    ensures
        !is_skipped(p.subrange(piece_start(p, lo, trim_back(p, lo, hi)), trim_back(p, lo, hi))),
    decreases hi - lo,
{
    lemma_piece_start(p, lo, hi);
    let a = piece_start(p, lo, hi);
    if is_skipped(p.subrange(a, hi)) {
        lemma_trim_back_piece(p, lo, if a > lo { a - 1 } else { lo });
    }
}

pub proof fn lemma_last_dot(n: Seq<char>, hi: int)
    requires
        0 <= hi <= n.len(),
    ensures
        -1 <= last_dot(n, hi) < hi,
        last_dot(n, hi) >= 0 ==> n[last_dot(n, hi)] == '.',
        forall|k: int| last_dot(n, hi) < k < hi ==> n[k] != '.',
    decreases hi,
{
    if hi > 0 && n[hi - 1] != '.' {
        lemma_last_dot(n, hi - 1);
    }
}

fn piece_start_exec(cs: &Vec<char>, lo: usize, hi: usize) -> (r: usize)
    requires
        lo <= hi <= cs.len(),
    ensures
        r == piece_start(cs@, lo as int, hi as int),
{
    let mut j = hi;
    while j > lo && cs[j - 1] != '/'
        invariant
            lo <= j <= hi <= cs.len(),
            piece_start(cs@, lo as int, j as int) == piece_start(cs@, lo as int, hi as int),
        decreases j,
    {
        j = j - 1;
    }
    j
}

fn is_skipped_exec(cs: &Vec<char>, a: usize, b: usize) -> (r: bool)
    requires
        a <= b <= cs.len(),
    ensures
        r == is_skipped(cs@.subrange(a as int, b as int)),
{
    if a == b {
        true
    } else if b - a == 1 && cs[a] == '.' {
        assert(cs@.subrange(a as int, b as int) =~= seq!['.']);
        true
    } else {
        proof {
            if b - a == 1 {
                assert(cs@.subrange(a as int, b as int)[0] != '.');
            } else {
                assert(cs@.subrange(a as int, b as int).len() != 1);
            }
        }
        false
    }
}

fn trim_back_exec(cs: &Vec<char>, lo: usize, hi: usize) -> (r: usize)
    requires
        lo <= hi <= cs.len(),
    ensures
        r == trim_back(cs@, lo as int, hi as int),
{
    let mut h = hi;
    while h > lo
        invariant
            lo <= h <= hi <= cs.len(),
            trim_back(cs@, lo as int, h as int) == trim_back(cs@, lo as int, hi as int),
        decreases h,
    {
        let a = piece_start_exec(cs, lo, h);
        proof {
            lemma_piece_start(cs@, lo as int, h as int);
        }
        if is_skipped_exec(cs, a, h) {
            h = if a > lo { a - 1 } else { lo };
        } else {
            return h;
        }
    }
    h
}

fn body_start_exec(cs: &Vec<char>) -> (r: usize)
    ensures
        r == body_start(cs@),
{
    let n = cs.len();
    if n > 0 && cs[0] == '/' {
        1
    } else if n > 0 && cs[0] == '.' && (n == 1 || cs[1] == '/') {
        1
    } else {
        0
    }
}

/// Bounds of the file name of the path whose characters are `cs`.
pub fn file_name_range(cs: &Vec<char>) -> (r: Option<(usize, usize)>)
    ensures
        r is None <==> file_name_bounds(cs@) is None,
        r matches Some((a, b)) ==> file_name_bounds(cs@) == Some((a as int, b as int)) && a <= b
            <= cs.len(),
{
    proof {
        lemma_last_component(cs@);
    }
    let lo = body_start_exec(cs);
    let e = trim_back_exec(cs, lo, cs.len());
    if e <= lo {
        return None;
    }
    let a = piece_start_exec(cs, lo, e);
    if e - a == 2 && cs[a] == '.' && cs[a + 1] == '.' {
        assert(cs@.subrange(a as int, e as int) =~= seq!['.', '.']);
        None
    } else {
        proof {
            if e - a == 2 {
                assert(cs@.subrange(a as int, e as int)[0] != '.' || cs@.subrange(
                    a as int,
                    e as int,
                )[1] != '.');
            } else {
                assert(cs@.subrange(a as int, e as int).len() != 2);
            }
        }
        Some((a, e))
    }
}

/// Index of the last `.` in `cs[a..b]`, if any.
pub fn last_dot_in(cs: &Vec<char>, a: usize, b: usize) -> (r: Option<usize>)
    requires
        a <= b <= cs.len(),
    ensures
        ({
            let d = last_dot(cs@.subrange(a as int, b as int), (b - a) as int);
            match r {
                Some(k) => d >= 0 && k == a + d,
                None => d == -1,
            }
        }),
{
    let ghost n = cs@.subrange(a as int, b as int);
    let mut j = b;
    while j > a
        invariant
            a <= j <= b <= cs.len(),
            n == cs@.subrange(a as int, b as int),
            last_dot(n, (j - a) as int) == last_dot(n, (b - a) as int),
        decreases j,
    {
        if cs[j - 1] == '.' {
            assert(n[(j - 1 - a) as int] == '.');
            return Some(j - 1);
        }
        assert(n[(j - 1 - a) as int] != '.');
        j = j - 1;
    }
    None
}


/// End of the parent of the path whose characters are `cs`, when its last
/// component starts at `a`.
pub fn parent_end_exec(cs: &Vec<char>, a: usize) -> (r: usize)
    requires
        body_start(cs@) <= a <= cs.len(),
    ensures
        r == parent_end(cs@, a as int),
{
    let lo = body_start_exec(cs);
    trim_back_exec(cs, lo, if a > lo { a - 1 } else { lo })
}

pub proof fn lemma_parent_end(p: Seq<char>, a: int)
    requires
        body_start(p) <= a <= p.len(),
    ensures
        0 <= parent_end(p, a) <= p.len(),
{
    let lo = body_start(p);
    lemma_trim_back(p, lo, if a > lo { a - 1 } else { lo });
}


/// `base/name`, with a `/` only where `base` is non-empty and does not end
/// in one (`PathBuf::push` of a relative name).
pub open spec fn push_name(base: Seq<char>, name: Seq<char>) -> Seq<char> {
    if base.len() > 0 && base.last() != '/' {
        base + "/"@ + name
    } else {
        base + name
    }
}

/// `p` with its file name replaced by `name`, or with `name` added when it
/// has none (`Path::with_file_name`, for a relative `name`).
pub open spec fn with_file_name_spec(p: Seq<char>, name: Seq<char>) -> Seq<char> {
    let base = match file_name_bounds(p) {
        Some((a, b)) => p.subrange(0, parent_end(p, a)),
        None => p,
    };
    push_name(base, name)
}

/// The file name of `p`, or nothing when it has none.
pub open spec fn file_name_or_empty(p: Seq<char>) -> Seq<char> {
    match file_name(p) {
        Some(n) => n,
        None => Seq::empty(),
    }
}

/// The file name of `p` (empty when it has none), with `suffix` appended.
pub fn file_name_with(p: &str, suffix: &str) -> (r: String)
    ensures
        r@ == file_name_or_empty(p@) + suffix@,
{
    let cs = chars_of(p);
    let mut out = match file_name_range(&cs) {
        Some((a, b)) => String::from_str(p.substring_char(a, b)),
        None => String::new(),
    };
    out.append(suffix);
    out
}

/// `p` with its file name replaced by `name` (`Path::with_file_name`).
pub fn with_file_name(p: &str, name: &str) -> (r: String)
    ensures
        r@ == with_file_name_spec(p@, name@),
{
    let cs = chars_of(p);
    let base = match file_name_range(&cs) {
        Some((a, b)) => {
            proof {
                lemma_last_component(cs@);
                lemma_parent_end(cs@, a as int);
            }
            let e = parent_end_exec(&cs, a);
            p.substring_char(0, e)
        },
        None => p,
    };
    let mut out = String::from_str(base);
    let bc = chars_of(base);
    if bc.len() > 0 && bc[bc.len() - 1] != '/' {
        out.append("/");
    }
    out.append(name);
    out
}

} // verus!
