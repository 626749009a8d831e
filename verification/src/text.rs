//! Character-level helpers shared by the parsers and the path builders:
//! whitespace, trimming, splitting and decimal numbers.

use vstd::prelude::*;
use vstd::string::*;

verus! {

/// The characters of `s`, in order.
pub fn chars_of(s: &str) -> (v: Vec<char>)
    ensures
        v@ == s@,
{
    let mut v: Vec<char> = Vec::new();
    for c in it: s.chars()
        invariant
            v@ == it.seq().take(it.index() as int),
    {
        v.push(c);
    }
    v
}

/// Unicode `White_Space`, the property that `char::is_whitespace` tests.
pub open spec fn is_ws(c: char) -> bool {
    let u = c as u32;
    ||| 0x09 <= u <= 0x0d
    ||| u == 0x20
    ||| u == 0x85
    ||| u == 0xa0
    ||| u == 0x1680
    ||| 0x2000 <= u <= 0x200a
    ||| u == 0x2028
    ||| u == 0x2029
    ||| u == 0x202f
    ||| u == 0x205f
    ||| u == 0x3000
}

pub fn is_whitespace(c: char) -> (b: bool)
    ensures
        b == is_ws(c),
{
    let u = c as u32;
    (0x09 <= u && u <= 0x0d) || u == 0x20 || u == 0x85 || u == 0xa0 || u == 0x1680 || (0x2000
        <= u && u <= 0x200a) || u == 0x2028 || u == 0x2029 || u == 0x202f || u == 0x205f || u
        == 0x3000
}

/// Index of the first non-whitespace character at or after `i` (or the length).
pub open spec fn skip_ws(s: Seq<char>, i: int) -> int
    decreases s.len() - i,
{
    if i >= s.len() {
        s.len() as int
    } else if is_ws(s[i]) {
        skip_ws(s, i + 1)
    } else {
        i
    }
}

/// One past the last non-whitespace character before `j` (or 0).
pub open spec fn skip_ws_back(s: Seq<char>, j: int) -> int
    decreases j,
{
    if j <= 0 {
        0
    } else if is_ws(s[j - 1]) {
        skip_ws_back(s, j - 1)
    } else {
        j
    }
}

/// `s` without leading and trailing whitespace, as `str::trim` gives it.
pub open spec fn trim(s: Seq<char>) -> Seq<char> {
    let a = skip_ws(s, 0);
    let b = skip_ws_back(s, s.len() as int);
    if a >= b {
        Seq::empty()
    } else {
        s.subrange(a, b)
    }
}

pub proof fn lemma_skip_ws_bounds(s: Seq<char>, i: int)
    requires
        0 <= i <= s.len(),
    ensures
        i <= skip_ws(s, i) <= s.len(),
        skip_ws(s, i) < s.len() ==> !is_ws(s[skip_ws(s, i)]),
        forall|k: int| i <= k < skip_ws(s, i) ==> is_ws(s[k]),
    decreases s.len() - i,
{
    if i < s.len() && is_ws(s[i]) {
        lemma_skip_ws_bounds(s, i + 1);
    }
}

pub proof fn lemma_skip_ws_back_bounds(s: Seq<char>, j: int)
    requires
        0 <= j <= s.len(),
    ensures
        0 <= skip_ws_back(s, j) <= j,
        skip_ws_back(s, j) > 0 ==> !is_ws(s[skip_ws_back(s, j) - 1]),
        forall|k: int| skip_ws_back(s, j) <= k < j ==> is_ws(s[k]),
    decreases j,
{
    if j > 0 && is_ws(s[j - 1]) {
        lemma_skip_ws_back_bounds(s, j - 1);
    }
}

/// The trimmed text has no whitespace at either end.
pub proof fn lemma_trim_ends(s: Seq<char>)
    ensures
        trim(s).len() > 0 ==> !is_ws(trim(s)[0]) && !is_ws(trim(s).last()),
        trim(s).len() <= s.len(),
{
    lemma_skip_ws_bounds(s, 0);
    lemma_skip_ws_back_bounds(s, s.len() as int);
}

/// Trimming a text that has no whitespace at either end leaves it unchanged.
pub proof fn lemma_trim_noop(s: Seq<char>)
    requires
        s.len() > 0 ==> !is_ws(s[0]) && !is_ws(s.last()),
    ensures
        trim(s) == s,
{
    if s.len() > 0 {
        assert(skip_ws(s, 0) == 0);
        assert(skip_ws_back(s, s.len() as int) == s.len());
        assert(s.subrange(0, s.len() as int) =~= s);
    }
}

/// `s` trimmed, as a slice of it.
pub fn trim_str(s: &str) -> (t: &str)
    ensures
        t@ == trim(s@),
{
    let cs = chars_of(s);
    let n = cs.len();
    let mut a: usize = 0;
    while a < n && is_whitespace(cs[a])
        invariant
            cs@ == s@,
            n == cs.len(),
            0 <= a <= n,
            skip_ws(s@, a as int) == skip_ws(s@, 0),
        decreases n - a,
    {
        a = a + 1;
    }
    let mut b: usize = n;
    while b > a && is_whitespace(cs[b - 1])
        invariant
            cs@ == s@,
            n == cs.len(),
            a <= b <= n,
            a == skip_ws(s@, 0),
            skip_ws_back(s@, b as int) == skip_ws_back(s@, n as int),
        decreases b,
    {
        b = b - 1;
    }
    proof {
        lemma_skip_ws_back_bounds(s@, b as int);
        lemma_skip_ws_bounds(s@, 0);
        if b == a && a < n {
            // The whole text is whitespace from `a` on only if `a` reached the end.
            assert(skip_ws_back(s@, b as int) <= b);
        }
    }
    s.substring_char(a, b)
}


/// The views of a sequence of strings.
pub open spec fn views(v: Seq<String>) -> Seq<Seq<char>> {
    v.map_values(|x: String| x@)
}

/// The pieces of `s` between occurrences of `c`, from the piece that starts
/// at `start`, having scanned up to `i`; `split` below is the whole of it.
pub open spec fn split_from(s: Seq<char>, c: char, start: int, i: int) -> Seq<Seq<char>>
    decreases s.len() - i,
{
    if i >= s.len() {
        seq![s.subrange(start, s.len() as int)]
    } else if s[i] == c {
        seq![s.subrange(start, i)] + split_from(s, c, i + 1, i + 1)
    } else {
        split_from(s, c, start, i + 1)
    }
}

/// The pieces of `s` separated by `c`, as `str::split` yields them: never
/// empty, with an empty piece between adjacent separators.
pub open spec fn split(s: Seq<char>, c: char) -> Seq<Seq<char>> {
    split_from(s, c, 0, 0)
}

/// The trimmed pieces of `s` separated by `c`.
pub open spec fn split_trim(s: Seq<char>, c: char) -> Seq<Seq<char>> {
    split(s, c).map_values(|f: Seq<char>| trim(f))
}

/// Splits `s` at every `sep` and trims each piece.
pub fn split_trimmed(s: &str, sep: char) -> (v: Vec<String>)
    ensures
        views(v@) == split_trim(s@, sep),
{
    let cs = chars_of(s);
    let n = cs.len();
    let mut v: Vec<String> = Vec::new();
    let mut start: usize = 0;
    let ghost mut done: Seq<Seq<char>> = Seq::empty();
    let mut i: usize = 0;
    while i < n
        invariant
            cs@ == s@,
            n == cs.len(),
            start <= i <= n,
            done + split_from(s@, sep, start as int, i as int) == split(s@, sep),
            views(v@) == done.map_values(|f: Seq<char>| trim(f)),
        decreases n - i,
    {
        if cs[i] == sep {
            let piece = trim_str(s.substring_char(start, i));
            let ghost done_prev = done;
            proof {
                done = done.push(s@.subrange(start as int, i as int));
                assert(split_from(s@, sep, start as int, i as int) == seq![s@.subrange(start as int, i as int)] + split_from(s@, sep, (i + 1) as int, (i + 1) as int));
                assert(done + split_from(s@, sep, (i + 1) as int, (i + 1) as int) =~= split(s@, sep));
            }
            let t = String::from_str(piece);
            let ghost old_v = v@;
            v.push(t);
            proof {
                assert(views(v@) =~= views(old_v).push(t@));
                assert(done.map_values(|f: Seq<char>| trim(f)) =~= done.drop_last().map_values(
                    |f: Seq<char>| trim(f),
                ).push(trim(done.last())));
                assert(done.drop_last() =~= done_prev);
            }
            start = i + 1;
        }
        i = i + 1;
    }
    let piece = trim_str(s.substring_char(start, n));
    let ghost done_prev = done;
    proof {
        done = done.push(s@.subrange(start as int, n as int));
    }
    let t = String::from_str(piece);
    let ghost old_v = v@;
    v.push(t);
    proof {
        assert(views(v@) =~= views(old_v).push(t@));
        assert(done.map_values(|f: Seq<char>| trim(f)) =~= done.drop_last().map_values(
            |f: Seq<char>| trim(f),
        ).push(trim(done.last())));
        assert(done.drop_last() =~= done_prev);
    }
    assert(done =~= split(s@, sep));
    v
}


/// Index of the first `c` in `s` at or after `i`, or the length of `s`.
pub open spec fn index_from(s: Seq<char>, c: char, i: int) -> int
    decreases s.len() - i,
{
    if i >= s.len() {
        s.len() as int
    } else if s[i] == c {
        i
    } else {
        index_from(s, c, i + 1)
    }
}

pub proof fn lemma_index_from(s: Seq<char>, c: char, i: int)
    requires
        0 <= i <= s.len(),
    ensures
        i <= index_from(s, c, i) <= s.len(),
        index_from(s, c, i) < s.len() ==> s[index_from(s, c, i)] == c,
        forall|k: int| i <= k < index_from(s, c, i) ==> s[k] != c,
    decreases s.len() - i,
{
    if i < s.len() && s[i] != c {
        lemma_index_from(s, c, i + 1);
    }
}

/// Index of the first `c` in `cs`, or its length.
pub fn find_char(cs: &Vec<char>, c: char) -> (r: usize)
    ensures
        r == index_from(cs@, c, 0),
        r <= cs.len(),
{
    let mut i: usize = 0;
    while i < cs.len() && cs[i] != c
        invariant
            i <= cs.len(),
            index_from(cs@, c, i as int) == index_from(cs@, c, 0),
        decreases cs.len() - i,
    {
        i = i + 1;
    }
    i
}

/// Whether two texts are equal.
pub fn eq_str(a: &str, b: &str) -> (r: bool)
    ensures
        r == (a@ == b@),
{
    let x = chars_of(a);
    let y = chars_of(b);
    if x.len() != y.len() {
        return false;
    }
    let mut i: usize = 0;
    while i < x.len()
        invariant
            x@ == a@,
            y@ == b@,
            x.len() == y.len(),
            i <= x.len(),
            forall|k: int| 0 <= k < i ==> x@[k] == y@[k],
        decreases x.len() - i,
    {
        if x[i] != y[i] {
            return false;
        }
        i = i + 1;
    }
    assert(a@ =~= b@);
    true
}

/// A line as `BufRead::lines` yields it: without a `\r` before its `\n`.
pub open spec fn strip_cr(line: Seq<char>) -> Seq<char> {
    if line.len() > 0 && line.last() == '\r' {
        line.drop_last()
    } else {
        line
    }
}

/// The lines of `t` from the one that starts at `start`, having scanned up to
/// `i`; `lines` below is all of them.
pub open spec fn lines_from(t: Seq<char>, start: int, i: int) -> Seq<Seq<char>>
    decreases t.len() - i,
{
    if i >= t.len() {
        if start < t.len() {
            seq![t.subrange(start, t.len() as int)]
        } else {
            Seq::empty()
        }
    } else if t[i] == '\n' {
        seq![strip_cr(t.subrange(start, i))] + lines_from(t, i + 1, i + 1)
    } else {
        lines_from(t, start, i + 1)
    }
}

/// The lines of `t`, as `BufRead::lines` yields them: split at `\n`, with a
/// `\r` before it dropped, and no empty line after a final `\n`.
pub open spec fn lines(t: Seq<char>) -> Seq<Seq<char>> {
    lines_from(t, 0, 0)
}


/// Scanning characters other than `\n` does not change the lines to come.
pub proof fn lemma_lines_skip(t: Seq<char>, start: int, i: int, j: int)
    requires
        0 <= start <= i <= j <= t.len(),
        forall|k: int| i <= k < j ==> t[k] != '\n',
    ensures
        lines_from(t, start, i) == lines_from(t, start, j),
    decreases j - i,
{
    if i < j {
        lemma_lines_skip(t, start, i + 1, j);
    }
}

/// The first line of `t`, or nothing when `t` is empty.
pub open spec fn first_line(t: Seq<char>) -> Seq<char> {
    if lines(t).len() > 0 {
        lines(t)[0]
    } else {
        Seq::empty()
    }
}

/// The first line of `s`.
pub fn first_line_str(s: &str) -> (r: &str)
    ensures
        r@ == first_line(s@),
{
    let cs = chars_of(s);
    let n = cs.len();
    let d = find_char(&cs, '\n');
    proof {
        lemma_index_from(s@, '\n', 0);
        lemma_lines_skip(s@, 0, 0, d as int);
    }
    if d < n {
        let end = if d > 0 && cs[d - 1] == '\r' {
            d - 1
        } else {
            d
        };
        assert(s@.subrange(0, end as int) =~= strip_cr(s@.subrange(0, d as int)));
        s.substring_char(0, end)
    } else {
        s.substring_char(0, n)
    }
}


/// `c` does not occur in `s`.
pub open spec fn lacks(s: Seq<char>, c: char) -> bool {
    forall|k: int| 0 <= k < s.len() ==> s[k] != c
}

/// Only whitespace in `s`.
pub open spec fn all_ws(s: Seq<char>) -> bool {
    forall|k: int| 0 <= k < s.len() ==> is_ws(s[k])
}

proof fn lemma_lines_shift(p: Seq<char>, q: Seq<char>, s: int, i: int)
    requires
        0 <= s <= i <= q.len(),
    ensures
        lines_from(p + q, p.len() + s, p.len() + i) == lines_from(q, s, i),
    decreases q.len() - i,
{
    let t = p + q;
    if i >= q.len() {
        if s < q.len() {
            assert(t.subrange(p.len() + s, t.len() as int) =~= q.subrange(s, q.len() as int));
        }
    } else {
        assert(t[p.len() + i] == q[i]);
        if q[i] == '\n' {
            assert(t.subrange(p.len() + s, p.len() + i) =~= q.subrange(s, i));
            lemma_lines_shift(p, q, i + 1, i + 1);
        } else {
            lemma_lines_shift(p, q, s, i + 1);
        }
    }
}

/// A line ended by `\n`, then the rest: that line, then the lines of the rest.
pub proof fn lemma_lines_cons(x: Seq<char>, q: Seq<char>)
    requires
        lacks(x, '\n'),
    ensures
        lines(x + seq!['\n'] + q) == seq![strip_cr(x)] + lines(q),
{
    let p = x + seq!['\n'];
    let t = p + q;
    assert(x + seq!['\n'] + q == t);
    lemma_lines_skip(t, 0, 0, x.len() as int);
    assert(t[x.len() as int] == '\n');
    assert(t.subrange(0, x.len() as int) =~= x);
    lemma_lines_shift(p, q, 0, 0);
}

/// A text without `\n` is one line (none when empty).
pub proof fn lemma_lines_single(x: Seq<char>)
    requires
        lacks(x, '\n'),
    ensures
        lines(x) == if x.len() > 0 {
            seq![x]
        } else {
            Seq::empty()
        },
{
    lemma_lines_skip(x, 0, 0, x.len() as int);
    assert(x.subrange(0, x.len() as int) =~= x);
}

proof fn lemma_split_skip(t: Seq<char>, c: char, start: int, i: int, j: int)
    requires
        0 <= start <= i <= j <= t.len(),
        forall|k: int| i <= k < j ==> t[k] != c,
    ensures
        split_from(t, c, start, i) == split_from(t, c, start, j),
    decreases j - i,
{
    if i < j {
        lemma_split_skip(t, c, start, i + 1, j);
    }
}

proof fn lemma_split_shift(p: Seq<char>, q: Seq<char>, c: char, s: int, i: int)
    requires
        0 <= s <= i <= q.len(),
    ensures
        split_from(p + q, c, p.len() + s, p.len() + i) == split_from(q, c, s, i),
    decreases q.len() - i,
{
    let t = p + q;
    if i >= q.len() {
        assert(t.subrange(p.len() + s, t.len() as int) =~= q.subrange(s, q.len() as int));
    } else {
        assert(t[p.len() + i] == q[i]);
        if q[i] == c {
            assert(t.subrange(p.len() + s, p.len() + i) =~= q.subrange(s, i));
            lemma_split_shift(p, q, c, i + 1, i + 1);
        } else {
            lemma_split_shift(p, q, c, s, i + 1);
        }
    }
}

/// A piece without `c`, then `c`, then the rest: that piece, then the pieces of the rest.
pub proof fn lemma_split_cons(x: Seq<char>, c: char, q: Seq<char>)
    requires
        lacks(x, c),
    ensures
        split(x + seq![c] + q, c) == seq![x] + split(q, c),
{
    let p = x + seq![c];
    let t = p + q;
    assert(x + seq![c] + q == t);
    lemma_split_skip(t, c, 0, 0, x.len() as int);
    assert(t[x.len() as int] == c);
    assert(t.subrange(0, x.len() as int) =~= x);
    lemma_split_shift(p, q, c, 0, 0);
}

/// A text without `c` is a single piece.
pub proof fn lemma_split_single(x: Seq<char>, c: char)
    requires
        lacks(x, c),
    ensures
        split(x, c) == seq![x],
{
    lemma_split_skip(x, c, 0, 0, x.len() as int);
    assert(x.subrange(0, x.len() as int) =~= x);
}

proof fn lemma_skip_ws_run(s: Seq<char>, i: int, j: int)
    requires
        0 <= i <= j <= s.len(),
        forall|k: int| i <= k < j ==> is_ws(s[k]),
    ensures
        skip_ws(s, i) == skip_ws(s, j),
    decreases j - i,
{
    if i < j {
        lemma_skip_ws_run(s, i + 1, j);
    }
}

proof fn lemma_skip_ws_back_run(s: Seq<char>, i: int, j: int)
    requires
        0 <= i <= j <= s.len(),
        forall|k: int| i <= k < j ==> is_ws(s[k]),
    ensures
        skip_ws_back(s, j) == skip_ws_back(s, i),
    decreases j - i,
{
    if i < j {
        lemma_skip_ws_back_run(s, i, j - 1);
    }
}

/// Trimming whitespace from around a text with no whitespace at its ends
/// gives back the text.
pub proof fn lemma_trim_padded(a: Seq<char>, x: Seq<char>, b: Seq<char>)
    requires
        all_ws(a),
        all_ws(b),
        x.len() > 0,
        !is_ws(x[0]),
        !is_ws(x.last()),
    ensures
        trim(a + x + b) == x,
{
    let s = a + x + b;
    let lo = a.len() as int;
    let hi = (a.len() + x.len()) as int;
    assert forall|k: int| 0 <= k < lo implies is_ws(s[k]) by {
        assert(s[k] == a[k]);
    }
    lemma_skip_ws_run(s, 0, lo);
    assert(s[lo] == x[0]);
    assert forall|k: int| hi <= k < s.len() implies is_ws(s[k]) by {
        assert(s[k] == b[k - hi]);
    }
    lemma_skip_ws_back_run(s, hi, s.len() as int);
    assert(s[hi - 1] == x.last());
    assert(s.subrange(lo, hi) =~= x);
}


/// Splits `s` at every `sep`.
pub fn split_all(s: &str, sep: char) -> (v: Vec<String>)
    ensures
        views(v@) == split(s@, sep),
{
    let cs = chars_of(s);
    let n = cs.len();
    let mut v: Vec<String> = Vec::new();
    let mut start: usize = 0;
    let ghost mut done: Seq<Seq<char>> = Seq::empty();
    let mut i: usize = 0;
    while i < n
        invariant
            cs@ == s@,
            n == cs.len(),
            start <= i <= n,
            done + split_from(s@, sep, start as int, i as int) == split(s@, sep),
            views(v@) == done,
        decreases n - i,
    {
        if cs[i] == sep {
            let piece = s.substring_char(start, i);
            let ghost done_prev = done;
            proof {
                done = done.push(s@.subrange(start as int, i as int));
                assert(split_from(s@, sep, start as int, i as int) == seq![s@.subrange(start as int, i as int)] + split_from(s@, sep, (i + 1) as int, (i + 1) as int));
                assert(done + split_from(s@, sep, (i + 1) as int, (i + 1) as int) =~= split(s@, sep));
            }
            let t = String::from_str(piece);
            let ghost old_v = v@;
            v.push(t);
            proof {
                assert(views(v@) =~= views(old_v).push(t@));
                assert(done =~= done_prev.push(t@));
            }
            start = i + 1;
        }
        i = i + 1;
    }
    let piece = s.substring_char(start, n);
    let ghost done_prev = done;
    proof {
        done = done.push(s@.subrange(start as int, n as int));
    }
    let t = String::from_str(piece);
    let ghost old_v = v@;
    v.push(t);
    proof {
        assert(views(v@) =~= views(old_v).push(t@));
        assert(done =~= done_prev.push(t@));
    }
    assert(done =~= split(s@, sep));
    v
}

} // verus!
