//! What the library knows of TheMovieDB: the records it reads from the API,
//! and how a credential is told apart.

use vstd::prelude::*;

use crate::text::chars_of;

verus! {

/// TMDB accepts either credential on the v3 endpoints; which one is held is
/// told by its form (the v4 token is a JWT).
#[derive(Debug, Clone)]
pub enum Auth {
    /// Legacy v3 API key, sent as an `api_key` query parameter.
    V3Key(String),
    /// v4 API Read Access Token, sent as a Bearer header.
    V4Token(String),
}

/// A JWT's header, and so a v4 token, starts with `eyJ` (base64 of `{"`).
pub open spec fn is_v4_token(credential: Seq<char>) -> bool {
    credential.len() >= 3 && credential[0] == 'e' && credential[1] == 'y' && credential[2] == 'J'
}

impl Auth {
    pub fn detect(credential: String) -> (r: Auth)
        ensures
            match r {
                Auth::V4Token(t) => t@ == credential@ && is_v4_token(credential@),
                Auth::V3Key(k) => k@ == credential@ && !is_v4_token(credential@),
            },
    {
        let cs = chars_of(credential.as_str());
        if cs.len() >= 3 && cs[0] == 'e' && cs[1] == 'y' && cs[2] == 'J' {
            Auth::V4Token(credential)
        } else {
            Auth::V3Key(credential)
        }
    }
}

/// A TV series as TMDB describes it.
#[derive(Debug, Clone)]
pub struct Series {
    pub name: String,
    pub first_air_date: Option<String>,
}

/// One episode of a series.
#[derive(Debug, Clone)]
pub struct Episode {
    pub name: String,
    /// Minutes, as published by TMDB.
    pub runtime: Option<u64>,
}

/// A movie as TMDB describes it.
#[derive(Debug, Clone)]
pub struct Movie {
    pub title: String,
    pub release_date: Option<String>,
    /// Minutes, as published by TMDB.
    pub runtime: Option<u64>,
}

pub struct SeriesV {
    pub name: Seq<char>,
    pub first_air_date: Option<Seq<char>>,
}

impl View for Series {
    type V = SeriesV;

    open spec fn view(&self) -> SeriesV {
        SeriesV {
            name: self.name@,
            first_air_date: crate::naming::opt_string(self.first_air_date),
        }
    }
}

pub struct EpisodeV {
    pub name: Seq<char>,
    pub runtime: Option<u64>,
}

impl View for Episode {
    type V = EpisodeV;

    open spec fn view(&self) -> EpisodeV {
        EpisodeV { name: self.name@, runtime: self.runtime }
    }
}

pub struct MovieV {
    pub title: Seq<char>,
    pub release_date: Option<Seq<char>>,
    pub runtime: Option<u64>,
}

impl View for Movie {
    type V = MovieV;

    open spec fn view(&self) -> MovieV {
        MovieV {
            title: self.title@,
            release_date: crate::naming::opt_string(self.release_date),
            runtime: self.runtime,
        }
    }
}

/// The number of bytes `c` takes in UTF-8.
pub open spec fn utf8_len(c: char) -> nat {
    let u = c as u32;
    if u < 0x80 {
        1
    } else if u < 0x800 {
        2
    } else if u < 0x10000 {
        3
    } else {
        4
    }
}

/// The number of bytes the first `k` characters of `s` take in UTF-8.
pub open spec fn utf8_prefix_len(s: Seq<char>, k: int) -> nat
    decreases k,
{
    if k <= 0 {
        0
    } else {
        utf8_prefix_len(s, k - 1) + utf8_len(s[k - 1])
    }
}

/// The characters that make up exactly the first `n` bytes of `s`, as
/// `str::get(..n)` gives them: none when `s` is shorter or byte `n` falls
/// inside a character.
pub open spec fn first_bytes(s: Seq<char>, n: nat) -> Option<Seq<char>> {
    if exists|k: int| 0 <= k <= s.len() && utf8_prefix_len(s, k) == n {
        Some(s.take(choose|k: int| 0 <= k <= s.len() && utf8_prefix_len(s, k) == n))
    } else {
        None
    }
}

/// The year of a `YYYY-MM-DD` date: its first four bytes, when they are whole
/// characters.
pub open spec fn year_of_spec(date: Option<Seq<char>>) -> Option<Seq<char>> {
    match date {
        Some(d) => match first_bytes(d, 4) {
            Some(y) => if y.len() > 0 {
                Some(y)
            } else {
                None
            },
            None => None,
        },
        None => None,
    }
}

proof fn lemma_prefix_len_monotone(s: Seq<char>, j: int, k: int)
    requires
        0 <= j < k,
    ensures
        utf8_prefix_len(s, j) < utf8_prefix_len(s, k),
    decreases k - j,
{
    if j + 1 < k {
        lemma_prefix_len_monotone(s, j, k - 1);
    }
}

fn utf8_len_exec(c: char) -> (r: u64)
    ensures
        r == utf8_len(c),
{
    let u = c as u32;
    if u < 0x80 {
        1
    } else if u < 0x800 {
        2
    } else if u < 0x10000 {
        3
    } else {
        4
    }
}

/// The first four bytes of `date`, when they are whole characters.
pub fn year_of(date: Option<&str>) -> (r: Option<&str>)
    ensures
        crate::naming::opt_chars(r) == year_of_spec(crate::naming::opt_chars(date)),
{
    let d = match date {
        Some(d) => d,
        None => return None,
    };
    let cs = chars_of(d);
    let n = cs.len();
    let mut k: usize = 0;
    let mut bytes: u64 = 0;
    while k < n && bytes < 4
        invariant
            cs@ == d@,
            n == cs.len(),
            k <= n,
            bytes == utf8_prefix_len(d@, k as int),
            bytes <= 7,
            forall|j: int| 0 <= j < k ==> utf8_prefix_len(d@, j) < 4,
        decreases n - k,
    {
        bytes = bytes + utf8_len_exec(cs[k]);
        k = k + 1;
    }
    if bytes == 4 {
        proof {
            assert forall|j: int| 0 <= j <= d@.len() && utf8_prefix_len(d@, j) == 4 implies j
                == k by {
                if j < k {
                } else if j > k {
                    lemma_prefix_len_monotone(d@, k as int, j);
                }
            }
        }
        if k == 0 {
            None
        } else {
            Some(d.substring_char(0, k))
        }
    } else {
        proof {
            assert forall|j: int| 0 <= j <= d@.len() implies utf8_prefix_len(d@, j) != 4 by {
                if j > k {
                    lemma_prefix_len_monotone(d@, k as int, j);
                }
            }
        }
        None
    }
}

impl Series {
    /// The year the series first aired, when TMDB knows it.
    pub fn first_air_year(&self) -> (r: Option<&str>)
        ensures
            crate::naming::opt_chars(r) == year_of_spec(crate::naming::opt_string(
                self.first_air_date,
            )),
    {
        match &self.first_air_date {
            Some(d) => year_of(Some(d.as_str())),
            None => None,
        }
    }
}

impl Movie {
    /// The year the movie was released, when TMDB knows it.
    pub fn release_year(&self) -> (r: Option<&str>)
        ensures
            crate::naming::opt_chars(r) == year_of_spec(crate::naming::opt_string(
                self.release_date,
            )),
    {
        match &self.release_date {
            Some(d) => year_of(Some(d.as_str())),
            None => None,
        }
    }
}

} // verus!
