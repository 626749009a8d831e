//! The library's naming rules: how a resolved row becomes a target path.

use vstd::prelude::*;
use vstd::string::*;

use crate::number::{self, push_pad2};
use crate::paths::{self, file_name_range, last_dot_in};
use crate::text::{self, chars_of, trim_str};

verus! {

/// Characters that are illegal or troublesome in file names.
pub open spec fn is_illegal(c: char) -> bool {
    c == '<' || c == '>' || c == ':' || c == '"' || c == '/' || c == '\\' || c == '|' || c == '?'
        || c == '*'
}

/// `s` without its illegal characters.
pub open spec fn drop_illegal(s: Seq<char>) -> Seq<char>
    decreases s.len(),
{
    if s.len() == 0 {
        Seq::empty()
    } else if is_illegal(s.last()) {
        drop_illegal(s.drop_last())
    } else {
        drop_illegal(s.drop_last()).push(s.last())
    }
}

/// A name made safe for a file name: illegal characters dropped, then trimmed.
pub open spec fn sanitized(s: Seq<char>) -> Seq<char> {
    text::trim(drop_illegal(s))
}

pub proof fn lemma_drop_illegal(s: Seq<char>)
    ensures
        forall|k: int| 0 <= k < drop_illegal(s).len() ==> !is_illegal(#[trigger] drop_illegal(s)[k]),
        drop_illegal(s).len() <= s.len(),
    decreases s.len(),
{
    if s.len() > 0 {
        lemma_drop_illegal(s.drop_last());
    }
}

/// A sanitized name holds no illegal character and no whitespace at either end.
pub proof fn lemma_sanitized(s: Seq<char>)
    ensures
        forall|k: int| 0 <= k < sanitized(s).len() ==> !is_illegal(#[trigger] sanitized(s)[k]),
        sanitized(s).len() > 0 ==> !text::is_ws(sanitized(s)[0])
            && !text::is_ws(sanitized(s).last()),
{
    lemma_drop_illegal(s);
    let d = drop_illegal(s);
    text::lemma_skip_ws_bounds(d, 0);
    text::lemma_skip_ws_back_bounds(d, d.len() as int);
    text::lemma_trim_ends(d);
    assert forall|k: int| 0 <= k < sanitized(s).len() implies !is_illegal(
        #[trigger] sanitized(s)[k],
    ) by {
        let a = text::skip_ws(d, 0);
        assert(sanitized(s)[k] == d[a + k]);
    }
}

/// Dropping illegal characters from a name that has none changes nothing.
proof fn lemma_drop_illegal_noop(s: Seq<char>)
    requires
        forall|k: int| 0 <= k < s.len() ==> !is_illegal(#[trigger] s[k]),
    ensures
        drop_illegal(s) == s,
    decreases s.len(),
{
    if s.len() > 0 {
        lemma_drop_illegal_noop(s.drop_last());
        assert(s.drop_last().push(s.last()) =~= s);
    }
}

/// Sanitizing is idempotent: a sanitized name is left as it is.
pub proof fn lemma_sanitized_idempotent(s: Seq<char>)
    ensures
        sanitized(sanitized(s)) == sanitized(s),
{
    let t = sanitized(s);
    lemma_sanitized(s);
    lemma_drop_illegal_noop(t);
    text::lemma_trim_noop(t);
}

/// The nine characters a file name loses: `< > : " / \ | ? *`.
pub open spec fn dropped_from_names(c: char) -> bool {
    c == '<' || c == '>' || c == ':' || c == '"' || c == '/' || c == '\\' || c == '|' || c == '?'
        || c == '*'
}

proof fn lemma_drop_illegal_filter(s: Seq<char>)
    ensures
        drop_illegal(s) == s.filter(|c: char| !dropped_from_names(c)),
    decreases s.len(),
{
    reveal(Seq::filter);
    if s.len() > 0 {
        lemma_drop_illegal_filter(s.drop_last());
    }
}

/// Sanitizing removes exactly the nine characters `< > : " / \ | ? *`,
/// wherever they stand, keeps every other character in order, and then
/// trims; a name holding none of them, and no whitespace at either end,
/// comes back unchanged.
pub proof fn lemma_sanitize_drops_only_the_nine(s: Seq<char>)
    ensures
        sanitized(s) == text::trim(s.filter(|c: char| !dropped_from_names(c))),
        (forall|k: int| 0 <= k < s.len() ==> !dropped_from_names(#[trigger] s[k])) && (s.len() > 0
            ==> !text::is_ws(s[0]) && !text::is_ws(s.last())) ==> sanitized(s) == s,
{
    lemma_drop_illegal_filter(s);
    if (forall|k: int| 0 <= k < s.len() ==> !dropped_from_names(#[trigger] s[k])) {
        assert forall|k: int| 0 <= k < s.len() implies !is_illegal(#[trigger] s[k]) by {
            assert(!dropped_from_names(s[k]));
        }
        lemma_drop_illegal_noop(s);
        if s.len() > 0 ==> !text::is_ws(s[0]) && !text::is_ws(s.last()) {
            text::lemma_trim_noop(s);
        }
    }
}

pub fn is_illegal_char(c: char) -> (b: bool)
    ensures
        b == is_illegal(c),
{
    c == '<' || c == '>' || c == ':' || c == '"' || c == '/' || c == '\\' || c == '|' || c == '?'
        || c == '*'
}

/// Strips characters that are illegal or troublesome in file names, and
/// the whitespace left at either end.
pub fn sanitize(name: &str) -> (r: String)
    ensures
        r@ == sanitized(name@),
{
    let cs = chars_of(name);
    let n = cs.len();
    let mut kept = String::new();
    let mut i: usize = 0;
    while i < n
        invariant
            cs@ == name@,
            n == cs.len(),
            i <= n,
            kept@ == drop_illegal(name@.take(i as int)),
        decreases n - i,
    {
        let ghost prefix = name@.take(i as int + 1);
        assert(prefix.drop_last() =~= name@.take(i as int));
        if !is_illegal_char(cs[i]) {
            kept.append(name.substring_char(i, i + 1));
            assert(name@.subrange(i as int, i + 1) =~= seq![prefix.last()]);
        }
        i = i + 1;
    }
    assert(name@.take(n as int) =~= name@);
    let t = trim_str(kept.as_str());
    String::from_str(t)
}

/// An optional text, by its characters.
pub open spec fn opt_chars(o: Option<&str>) -> Option<Seq<char>> {
    match o {
        Some(s) => Some(s@),
        None => None,
    }
}

/// `Name (Year)`, or just the name when the year is unknown.
pub open spec fn with_year_spec(name: Seq<char>, year: Option<Seq<char>>) -> Seq<char> {
    match year {
        Some(y) => name + " ("@ + y + ")"@,
        None => name,
    }
}

pub fn with_year(name: &str, year: Option<&str>) -> (r: String)
    ensures
        r@ == with_year_spec(name@, opt_chars(year)),
{
    let mut out = String::from_str(name);
    match year {
        Some(y) => {
            out.append(" (");
            out.append(y);
            out.append(")");
        },
        None => {},
    }
    out
}

/// `sSSeEE`, or `sSSeEE-eFF` for a run of episodes ending at `FF`.
pub open spec fn episode_code(season: nat, episode: nat, episode_end: Option<u32>) -> Seq<char> {
    "s"@ + number::pad2(season) + "e"@ + number::pad2(episode) + match episode_end {
        Some(end) => "-e"@ + number::pad2(end as nat),
        None => Seq::empty(),
    }
}

/// `Series (Year)/Season SS/Series - sSSeEE - Episode Title.ext`.
pub open spec fn tv_path_spec(
    series_name: Seq<char>,
    year: Option<Seq<char>>,
    season: nat,
    episode: nat,
    episode_end: Option<u32>,
    episode_title: Seq<char>,
    ext: Seq<char>,
) -> Seq<char> {
    let series = sanitized(series_name);
    with_year_spec(series, year) + "/Season "@ + number::pad2(season) + "/"@ + series + " - "@
        + episode_code(season, episode, episode_end) + " - "@ + sanitized(episode_title) + "."@
        + ext
}

/// The library path of an episode (or a run of episodes), with the year on
/// the series folder only and Jellyfin's `sSSeE1-eE2` form for a run.
pub fn tv_path(
    series_name: &str,
    year: Option<&str>,
    season: u32,
    episode: u32,
    episode_end: Option<u32>,
    episode_title: &str,
    ext: &str,
) -> (r: String)
    ensures
        r@ == tv_path_spec(
            series_name@,
            opt_chars(year),
            season as nat,
            episode as nat,
            episode_end,
            episode_title@,
            ext@,
        ),
{
    let series = sanitize(series_name);
    let title = sanitize(episode_title);
    let mut out = with_year(series.as_str(), year);
    out.append("/Season ");
    push_pad2(&mut out, season as u64);
    out.append("/");
    out.append(series.as_str());
    out.append(" - s");
    push_pad2(&mut out, season as u64);
    out.append("e");
    push_pad2(&mut out, episode as u64);
    match episode_end {
        Some(end) => {
            out.append("-e");
            push_pad2(&mut out, end as u64);
        },
        None => {},
    }
    out.append(" - ");
    out.append(title.as_str());
    out.append(".");
    out.append(ext);
    proof {
        reveal_strlit(" - s");
        reveal_strlit(" - ");
        reveal_strlit("s");
    }
    assert(out@ =~= tv_path_spec(
        series_name@,
        opt_chars(year),
        season as nat,
        episode as nat,
        episode_end,
        episode_title@,
        ext@,
    ));
    out
}

/// `Title (Year)/Title (Year).ext`.
pub open spec fn movie_path_spec(title: Seq<char>, year: Option<Seq<char>>, ext: Seq<char>) -> Seq<
    char,
> {
    let name = with_year_spec(sanitized(title), year);
    name + "/"@ + name + "."@ + ext
}

/// The library path of a movie, which sits in a folder of its own.
pub fn movie_path(title: &str, year: Option<&str>, ext: &str) -> (r: String)
    ensures
        r@ == movie_path_spec(title@, opt_chars(year), ext@),
{
    let clean = sanitize(title);
    let name = with_year(clean.as_str(), year);
    let mut out = name.clone();
    out.append("/");
    out.append(name.as_str());
    out.append(".");
    out.append(ext);
    out
}

/// `<parent_dir>[/Season SS]/<extra_type>/<Name>.ext`.
pub open spec fn extra_path_spec(
    parent_dir: Seq<char>,
    season: Option<u32>,
    extra_type: Seq<char>,
    name: Seq<char>,
    ext: Seq<char>,
) -> Seq<char> {
    parent_dir + match season {
        Some(s) => "/Season "@ + number::pad2(s as nat),
        None => Seq::empty(),
    } + "/"@ + extra_type + "/"@ + sanitized(name) + "."@ + ext
}

/// The path of an extra in the Jellyfin extras folder of a movie or series
/// (or of one season).
pub fn extra_path(
    parent_dir: &str,
    season: Option<u32>,
    extra_type: &str,
    name: &str,
    ext: &str,
) -> (r: String)
    ensures
        r@ == extra_path_spec(parent_dir@, season, extra_type@, name@, ext@),
{
    let clean = sanitize(name);
    let mut out = String::from_str(parent_dir);
    match season {
        Some(s) => {
            out.append("/Season ");
            push_pad2(&mut out, s as u64);
        },
        None => {},
    }
    out.append("/");
    out.append(extra_type);
    out.append("/");
    out.append(clean.as_str());
    out.append(".");
    out.append(ext);
    assert(out@ =~= extra_path_spec(parent_dir@, season, extra_type@, name@, ext@));
    out
}

/// `root/path` under a library root, or `path` as it is.
pub open spec fn under_spec(root: Option<Seq<char>>, path: Seq<char>) -> Seq<char> {
    match root {
        Some(r) => r + "/"@ + path,
        None => path,
    }
}

pub open spec fn opt_string(o: Option<String>) -> Option<Seq<char>> {
    match o {
        Some(s) => Some(s@),
        None => None,
    }
}

/// Places `path` under the library root, when one is set.
pub fn under(root: &Option<String>, path: String) -> (r: String)
    ensures
        r@ == under_spec(opt_string(*root), path@),
{
    match root {
        Some(root) => {
            let mut out = root.clone();
            out.append("/");
            out.append(path.as_str());
            out
        },
        None => path,
    }
}

/// `s` without the `c` characters at its end.
pub open spec fn strip_end(s: Seq<char>, c: char) -> Seq<char>
    decreases s.len(),
{
    if s.len() > 0 && s.last() == c {
        strip_end(s.drop_last(), c)
    } else {
        s
    }
}

/// A library root as given: trimmed, without trailing slashes, and absent
/// when nothing is left.
pub open spec fn clean_root_spec(value: Seq<char>) -> Option<Seq<char>> {
    let v = strip_end(text::trim(value), '/');
    if v.len() == 0 {
        None
    } else {
        Some(v)
    }
}

pub fn clean_root(value: String) -> (r: Option<String>)
    ensures
        opt_string(r) == clean_root_spec(value@),
{
    let t = trim_str(value.as_str());
    let cs = chars_of(t);
    let mut end = cs.len();
    assert(t@.take(end as int) =~= t@);
    while end > 0 && cs[end - 1] == '/'
        invariant
            cs@ == t@,
            end <= cs.len(),
            strip_end(t@.take(end as int), '/') == strip_end(t@, '/'),
        decreases end,
    {
        assert(t@.take(end as int).drop_last() =~= t@.take(end - 1));
        end = end - 1;
    }
    if end == 0 {
        None
    } else {
        assert(t@.take(end as int) =~= t@.subrange(0, end as int));
        Some(String::from_str(t.substring_char(0, end)))
    }
}

/// The extension of `source`, or `mkv` when it has none.
pub open spec fn extension_of_spec(source: Seq<char>) -> Seq<char> {
    match paths::extension(source) {
        Some(e) => e,
        None => "mkv"@,
    }
}

pub fn extension_of(source: &str) -> (r: &str)
    ensures
        r@ == extension_of_spec(source@),
{
    let cs = chars_of(source);
    match file_name_range(&cs) {
        Some((a, b)) => {
            let ghost n = cs@.subrange(a as int, b as int);
            assert(paths::file_name(source@) == Some(n));
            proof {
                paths::lemma_last_dot(n, (b - a) as int);
            }
            match last_dot_in(&cs, a, b) {
                Some(d) if d > a => {
                    assert(n.subrange(d - a + 1, b - a) =~= cs@.subrange(d + 1, b as int));
                    source.substring_char(d + 1, b)
                },
                _ => {
                    assert(paths::extension(source@) is None);
                    "mkv"
                },
            }
        },
        None => {
            assert(paths::extension(source@) is None);
            "mkv"
        },
    }
}

} // verus!
