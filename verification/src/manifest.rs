//! The manifest: one row per ripped file, its columns separated by `|` (or
//! by tabs, in rows that hold one), under a `#lyrebird:manifest` first line.
//! The same row syntax serves the rename plan.

use vstd::prelude::*;
use vstd::string::*;

use crate::number::{self, parse_unsigned_str, push_decimal, NumberError};
use crate::text::{self, chars_of, eq_str, find_char, split_trimmed, trim_str};

verus! {

/// The first line of a manifest.
pub const MANIFEST_MARKER: &'static str = "#lyrebird:manifest";

/// The first line of a rename plan.
pub const RENAMES_MARKER: &'static str = "#lyrebird:renames";

/// One row of a manifest or plan: its 1-based line number in the file
/// (comments and blank lines counted) and its trimmed fields.
#[derive(Debug, Clone)]
pub struct Row {
    pub line: u64,
    pub fields: Vec<String>,
}

pub open spec fn row_view(r: Row) -> (u64, Seq<Seq<char>>) {
    (r.line, text::views(r.fields@))
}

pub open spec fn rows_view(v: Seq<Row>) -> Seq<(u64, Seq<Seq<char>>)> {
    v.map_values(|r: Row| row_view(r))
}

/// A line that holds a row: neither blank nor a `#` comment.
pub open spec fn is_content(line: Seq<char>) -> bool {
    let t = text::trim(line);
    t.len() > 0 && t[0] != '#'
}

/// The column separator of a line: a tab when it holds one, else `|`.
pub open spec fn separator(line: Seq<char>) -> char {
    if line.contains('\t') {
        '\t'
    } else {
        '|'
    }
}

/// The trimmed fields of a row.
pub open spec fn row_fields(line: Seq<char>) -> Seq<Seq<char>> {
    text::split_trim(line, separator(line))
}

/// The rows among the first `k` lines, each with its line number.
pub open spec fn rows_of(ls: Seq<Seq<char>>, k: int) -> Seq<(u64, Seq<Seq<char>>)>
    decreases k,
{
    if k <= 0 {
        Seq::empty()
    } else if is_content(ls[k - 1]) {
        rows_of(ls, k - 1).push((k as u64, row_fields(ls[k - 1])))
    } else {
        rows_of(ls, k - 1)
    }
}

/// The rows of a text.
pub open spec fn rows(t: Seq<char>) -> Seq<(u64, Seq<Seq<char>>)> {
    rows_of(text::lines(t), text::lines(t).len() as int)
}

proof fn lemma_contains_index(s: Seq<char>, c: char)
    ensures
        s.contains(c) <==> text::index_from(s, c, 0) < s.len(),
{
    text::lemma_index_from(s, c, 0);
    if s.contains(c) {
        let k = choose|k: int| 0 <= k < s.len() && s[k] == c;
        assert(k >= text::index_from(s, c, 0));
    }
}

proof fn lemma_rows_of_prefix(a: Seq<Seq<char>>, b: Seq<Seq<char>>, k: int)
    requires
        0 <= k <= a.len(),
        k <= b.len(),
        forall|j: int| 0 <= j < k ==> a[j] == b[j],
    ensures
        rows_of(a, k) == rows_of(b, k),
    decreases k,
{
    if k > 0 {
        lemma_rows_of_prefix(a, b, k - 1);
    }
}

/// Appends the row of line `number`, if the line holds one.
fn push_row(v: &mut Vec<Row>, line: &str, number: u64)
    ensures
        rows_view(final(v)@) == rows_view(old(v)@) + if is_content(line@) {
            seq![(number, row_fields(line@))]
        } else {
            Seq::empty()
        },
{
    let t = trim_str(line);
    let tc = chars_of(t);
    if tc.len() == 0 || tc[0] == '#' {
        assert(rows_view(v@) =~= rows_view(v@) + Seq::empty());
        return ;
    }
    let lc = chars_of(line);
    proof {
        lemma_contains_index(line@, '\t');
    }
    let sep = if find_char(&lc, '\t') < lc.len() {
        '\t'
    } else {
        '|'
    };
    let row = Row { line: number, fields: split_trimmed(line, sep) };
    v.push(row);
    assert(rows_view(v@) =~= rows_view(old(v)@) + seq![(number, row_fields(line@))]);
}

/// Splits a manifest or plan into its rows, skipping blank lines and `#`
/// comments; line numbers count every line of the text.
pub fn tsv_lines(input: &str) -> (v: Vec<Row>)
    ensures
        rows_view(v@) == rows(input@),
{
    let cs = chars_of(input);
    let n = cs.len();
    let mut v: Vec<Row> = Vec::new();
    let mut start: usize = 0;
    let mut count: usize = 0;
    let mut i: usize = 0;
    let ghost mut done: Seq<Seq<char>> = Seq::empty();
    while i < n
        invariant
            cs@ == input@,
            n == cs.len(),
            start <= i <= n,
            count == done.len(),
            count <= start,
            done + text::lines_from(input@, start as int, i as int) == text::lines(input@),
            rows_view(v@) == rows_of(done, done.len() as int),
        decreases n - i,
    {
        if cs[i] == '\n' {
            let end = if i > start && cs[i - 1] == '\r' {
                i - 1
            } else {
                i
            };
            let line = input.substring_char(start, end);
            proof {
                let piece = input@.subrange(start as int, i as int);
                assert(line@ =~= text::strip_cr(piece));
                assert(text::lines_from(input@, start as int, i as int) == seq![text::strip_cr(piece)]
                    + text::lines_from(input@, (i + 1) as int, (i + 1) as int));
            }
            push_row(&mut v, line, (count + 1) as u64);
            proof {
                let next = done.push(line@);
                assert(next.drop_last() =~= done);
                assert(rows_of(next, next.len() as int) == rows_of(done, done.len() as int) + if is_content(line@) {
                    seq![((count + 1) as u64, row_fields(line@))]
                } else {
                    Seq::empty()
                }) by {
                    lemma_rows_of_prefix(next, done, done.len() as int);
                    if !is_content(line@) {
                        assert(rows_of(done, done.len() as int) =~= rows_of(done, done.len() as int) + Seq::empty());
                    }
                }
                assert(next + text::lines_from(input@, (i + 1) as int, (i + 1) as int) =~= done
                    + text::lines_from(input@, start as int, i as int));
                done = next;
            }
            count = count + 1;
            start = i + 1;
        }
        i = i + 1;
    }
    if start < n {
        let line = input.substring_char(start, n);
        push_row(&mut v, line, (count + 1) as u64);
        proof {
            let next = done.push(line@);
            assert(next.drop_last() =~= done);
            assert(rows_of(next, next.len() as int) == rows_of(done, done.len() as int) + if is_content(line@) {
                seq![((count + 1) as u64, row_fields(line@))]
            } else {
                Seq::empty()
            }) by {
                lemma_rows_of_prefix(next, done, done.len() as int);
                if !is_content(line@) {
                    assert(rows_of(done, done.len() as int) =~= rows_of(done, done.len() as int) + Seq::empty());
                }
            }
            assert(next =~= text::lines(input@));
        }
    } else {
        assert(done =~= text::lines(input@));
    }
    v
}


/// A manifest column, named as error messages name it.
#[derive(Debug, Clone, Copy, PartialEq, Eq, Structural)]
pub enum Column {
    Source,
    Kind,
    SeriesId,
    Season,
    Episode,
    MovieId,
    NewName,
    ExtraType,
    Name,
    Duration,
}

pub open spec fn column_name(c: Column) -> Seq<char> {
    match c {
        Column::Source => "source"@,
        Column::Kind => "kind"@,
        Column::SeriesId => "tmdb_series_id"@,
        Column::Season => "season"@,
        Column::Episode => "episode"@,
        Column::MovieId => "tmdb_movie_id"@,
        Column::NewName => "new_name"@,
        Column::ExtraType => "extra_type"@,
        Column::Name => "name"@,
        Column::Duration => "expected_duration_secs"@,
    }
}

impl Column {
    pub fn name(&self) -> (r: &'static str)
        ensures
            r@ == column_name(*self),
    {
        match self {
            Column::Source => "source",
            Column::Kind => "kind",
            Column::SeriesId => "tmdb_series_id",
            Column::Season => "season",
            Column::Episode => "episode",
            Column::MovieId => "tmdb_movie_id",
            Column::NewName => "new_name",
            Column::ExtraType => "extra_type",
            Column::Name => "name",
            Column::Duration => "expected_duration_secs",
        }
    }
}

/// One row of the manifest. The `kind` column determines the variant.
#[derive(Debug, Clone)]
pub enum ManifestRow {
    Tv {
        source: String,
        series_id: u32,
        season: u32,
        episode: u32,
        /// Set when the rip contains a run of episodes (`3-4` in the episode
        /// column): the inclusive end of the range.
        episode_end: Option<u32>,
        /// What the disc calls the episode, to cross-check TMDB's title.
        expected_title: Option<String>,
    },
    Movie { source: String, movie_id: u32, expected_title: Option<String> },
    /// An extra that belongs in a movie's Jellyfin extras folder.
    MovieExtra {
        source: String,
        movie_id: u32,
        extra_type: String,
        name: String,
        expected_duration: Option<u64>,
    },
    /// An extra that belongs in a series' (or season's) extras folder.
    TvExtra {
        source: String,
        series_id: u32,
        season: Option<u32>,
        extra_type: String,
        name: String,
        expected_duration: Option<u64>,
    },
    /// Content not on TMDB: the target path is supplied directly.
    Manual { source: String, new_name: String, expected_duration: Option<u64> },
}

/// A manifest row, by the characters of its texts.
pub enum RowV {
    Tv {
        source: Seq<char>,
        series_id: u32,
        season: u32,
        episode: u32,
        episode_end: Option<u32>,
        expected_title: Option<Seq<char>>,
    },
    Movie { source: Seq<char>, movie_id: u32, expected_title: Option<Seq<char>> },
    MovieExtra {
        source: Seq<char>,
        movie_id: u32,
        extra_type: Seq<char>,
        name: Seq<char>,
        expected_duration: Option<u64>,
    },
    TvExtra {
        source: Seq<char>,
        series_id: u32,
        season: Option<u32>,
        extra_type: Seq<char>,
        name: Seq<char>,
        expected_duration: Option<u64>,
    },
    Manual { source: Seq<char>, new_name: Seq<char>, expected_duration: Option<u64> },
}

impl View for ManifestRow {
    type V = RowV;

    open spec fn view(&self) -> RowV {
        match self {
            ManifestRow::Tv { source, series_id, season, episode, episode_end, expected_title } =>
                RowV::Tv {
                source: source@,
                series_id: *series_id,
                season: *season,
                episode: *episode,
                episode_end: *episode_end,
                expected_title: crate::naming::opt_string(*expected_title),
            },
            ManifestRow::Movie { source, movie_id, expected_title } => RowV::Movie {
                source: source@,
                movie_id: *movie_id,
                expected_title: crate::naming::opt_string(*expected_title),
            },
            ManifestRow::MovieExtra { source, movie_id, extra_type, name, expected_duration } =>
                RowV::MovieExtra {
                source: source@,
                movie_id: *movie_id,
                extra_type: extra_type@,
                name: name@,
                expected_duration: *expected_duration,
            },
            ManifestRow::TvExtra {
                source,
                series_id,
                season,
                extra_type,
                name,
                expected_duration,
            } => RowV::TvExtra {
                source: source@,
                series_id: *series_id,
                season: *season,
                extra_type: extra_type@,
                name: name@,
                expected_duration: *expected_duration,
            },
            ManifestRow::Manual { source, new_name, expected_duration } => RowV::Manual {
                source: source@,
                new_name: new_name@,
                expected_duration: *expected_duration,
            },
        }
    }
}

/// Why a row is not a valid manifest row.
#[derive(Debug, Clone)]
pub enum RowError {
    MissingColumn(Column),
    InvalidNumber { column: Column, text: String, cause: NumberError },
    InvalidEpisode { text: String, cause: NumberError },
    InvalidEpisodeRange { text: String, cause: NumberError },
    BackwardsEpisodeRange { text: String },
    UnknownExtraType { text: String },
    UnknownKind { text: String },
}

pub enum RowErrorV {
    MissingColumn(Column),
    InvalidNumber { column: Column, text: Seq<char>, cause: NumberError },
    InvalidEpisode { text: Seq<char>, cause: NumberError },
    InvalidEpisodeRange { text: Seq<char>, cause: NumberError },
    BackwardsEpisodeRange { text: Seq<char> },
    UnknownExtraType { text: Seq<char> },
    UnknownKind { text: Seq<char> },
}

impl View for RowError {
    type V = RowErrorV;

    open spec fn view(&self) -> RowErrorV {
        match self {
            RowError::MissingColumn(c) => RowErrorV::MissingColumn(*c),
            RowError::InvalidNumber { column, text, cause } => RowErrorV::InvalidNumber {
                column: *column,
                text: text@,
                cause: *cause,
            },
            RowError::InvalidEpisode { text, cause } => RowErrorV::InvalidEpisode {
                text: text@,
                cause: *cause,
            },
            RowError::InvalidEpisodeRange { text, cause } => RowErrorV::InvalidEpisodeRange {
                text: text@,
                cause: *cause,
            },
            RowError::BackwardsEpisodeRange { text } => RowErrorV::BackwardsEpisodeRange {
                text: text@,
            },
            RowError::UnknownExtraType { text } => RowErrorV::UnknownExtraType { text: text@ },
            RowError::UnknownKind { text } => RowErrorV::UnknownKind { text: text@ },
        }
    }
}

/// The text of a row error, as the command line reports it.
pub open spec fn row_error_text(e: RowErrorV) -> Seq<char> {
    match e {
        RowErrorV::MissingColumn(c) => "missing "@ + column_name(c) + " column"@,
        RowErrorV::InvalidNumber { column, text, cause } => "invalid "@ + column_name(column)
            + " '"@ + text + "': "@ + number::number_error_text(cause),
        RowErrorV::InvalidEpisode { text, cause } => "invalid episode '"@ + text + "': "@
            + number::number_error_text(cause),
        RowErrorV::InvalidEpisodeRange { text, cause } => "invalid episode range '"@ + text
            + "': "@ + number::number_error_text(cause),
        RowErrorV::BackwardsEpisodeRange { text } => "invalid episode range '"@ + text
            + "' (end must be greater than start)"@,
        RowErrorV::UnknownExtraType { text } => "unknown extra type '"@ + text
            + "' (expected one of extras, featurettes, trailers, behind the scenes, deleted scenes, interviews, scenes, shorts, clips, other)"@,
        RowErrorV::UnknownKind { text } => "unknown row kind '"@ + text
            + "' (expected tv, movie, movie-extra, tv-extra, or manual)"@,
    }
}

impl RowError {
    pub fn message(&self) -> (r: String)
        ensures
            r@ == row_error_text(self@),
    {
        let mut out = String::new();
        match self {
            RowError::MissingColumn(c) => {
                out.append("missing ");
                out.append(c.name());
                out.append(" column");
            },
            RowError::InvalidNumber { column, text, cause } => {
                out.append("invalid ");
                out.append(column.name());
                out.append(" '");
                out.append(text.as_str());
                out.append("': ");
                out.append(cause.message());
            },
            RowError::InvalidEpisode { text, cause } => {
                out.append("invalid episode '");
                out.append(text.as_str());
                out.append("': ");
                out.append(cause.message());
            },
            RowError::InvalidEpisodeRange { text, cause } => {
                out.append("invalid episode range '");
                out.append(text.as_str());
                out.append("': ");
                out.append(cause.message());
            },
            RowError::BackwardsEpisodeRange { text } => {
                out.append("invalid episode range '");
                out.append(text.as_str());
                out.append("' (end must be greater than start)");
            },
            RowError::UnknownExtraType { text } => {
                out.append("unknown extra type '");
                out.append(text.as_str());
                out.append(
                    "' (expected one of extras, featurettes, trailers, behind the scenes, deleted scenes, interviews, scenes, shorts, clips, other)",
                );
            },
            RowError::UnknownKind { text } => {
                out.append("unknown row kind '");
                out.append(text.as_str());
                out.append("' (expected tv, movie, movie-extra, tv-extra, or manual)");
            },
        }
        out
    }
}

/// The trimmed field at `i`, when there is one and it is not blank.
pub open spec fn field_at(f: Seq<Seq<char>>, i: int) -> Option<Seq<char>> {
    if 0 <= i < f.len() && text::trim(f[i]).len() > 0 {
        Some(text::trim(f[i]))
    } else {
        None
    }
}

pub open spec fn required(f: Seq<Seq<char>>, i: int, column: Column) -> Result<
    Seq<char>,
    RowErrorV,
> {
    match field_at(f, i) {
        Some(t) => Ok(t),
        None => Err(RowErrorV::MissingColumn(column)),
    }
}

pub open spec fn number_at(f: Seq<Seq<char>>, i: int, column: Column, max: nat) -> Result<
    nat,
    RowErrorV,
> {
    match required(f, i, column) {
        Err(e) => Err(e),
        Ok(t) => match number::parse_unsigned(t, max) {
            Ok(v) => Ok(v),
            Err(cause) => Err(RowErrorV::InvalidNumber { column, text: t, cause }),
        },
    }
}

pub open spec fn optional_number_at(f: Seq<Seq<char>>, i: int, column: Column, max: nat) -> Result<
    Option<nat>,
    RowErrorV,
> {
    match field_at(f, i) {
        None => Ok(None),
        Some(t) => match number::parse_unsigned(t, max) {
            Ok(v) => Ok(Some(v)),
            Err(cause) => Err(RowErrorV::InvalidNumber { column, text: t, cause }),
        },
    }
}

pub open spec fn u32_max() -> nat {
    0xffff_ffff
}

pub open spec fn u64_max() -> nat {
    0xffff_ffff_ffff_ffff
}

/// The episode column: `3`, or `3-4` for a run of episodes whose end must
/// be greater than its start.
pub open spec fn episode_range_spec(t: Seq<char>) -> Result<(u32, Option<u32>), RowErrorV> {
    let d = text::index_from(t, '-', 0);
    if d >= t.len() {
        match number::parse_unsigned(t, u32_max()) {
            Ok(v) => Ok((v as u32, None)),
            Err(cause) => Err(RowErrorV::InvalidEpisode { text: t, cause }),
        }
    } else {
        match number::parse_unsigned(text::trim(t.take(d)), u32_max()) {
            Err(cause) => Err(RowErrorV::InvalidEpisodeRange { text: t, cause }),
            Ok(start) => match number::parse_unsigned(
                text::trim(t.skip(d + 1)),
                u32_max(),
            ) {
                Err(cause) => Err(RowErrorV::InvalidEpisodeRange { text: t, cause }),
                Ok(end) => if end <= start {
                    Err(RowErrorV::BackwardsEpisodeRange { text: t })
                } else {
                    Ok((start as u32, Some(end as u32)))
                },
            },
        }
    }
}

/// The folder names Jellyfin recognizes for extras.
pub open spec fn is_extra_type(t: Seq<char>) -> bool {
    ||| t == "extras"@
    ||| t == "featurettes"@
    ||| t == "trailers"@
    ||| t == "behind the scenes"@
    ||| t == "deleted scenes"@
    ||| t == "interviews"@
    ||| t == "scenes"@
    ||| t == "shorts"@
    ||| t == "clips"@
    ||| t == "other"@
}

pub open spec fn extra_type_at(f: Seq<Seq<char>>, i: int) -> Result<Seq<char>, RowErrorV> {
    match required(f, i, Column::ExtraType) {
        Err(e) => Err(e),
        Ok(t) => if is_extra_type(t) {
            Ok(t)
        } else {
            Err(RowErrorV::UnknownExtraType { text: t })
        },
    }
}

/// The folders Jellyfin recognizes for extras.
pub open spec fn jellyfin_extra_folders() -> Seq<Seq<char>> {
    seq![
        "extras"@,
        "featurettes"@,
        "trailers"@,
        "behind the scenes"@,
        "deleted scenes"@,
        "interviews"@,
        "scenes"@,
        "shorts"@,
        "clips"@,
        "other"@,
    ]
}

/// The extra type of an extras row.
pub open spec fn row_extra_type(r: RowV) -> Option<Seq<char>> {
    match r {
        RowV::MovieExtra { extra_type, .. } => Some(extra_type),
        RowV::TvExtra { extra_type, .. } => Some(extra_type),
        _ => None,
    }
}

proof fn lemma_extra_folders(t: Seq<char>)
    ensures
        is_extra_type(t) <==> jellyfin_extra_folders().contains(t),
{
    let names = jellyfin_extra_folders();
    if is_extra_type(t) {
        if t == "extras"@ { assert(names[0] == t); }
        else if t == "featurettes"@ { assert(names[1] == t); }
        else if t == "trailers"@ { assert(names[2] == t); }
        else if t == "behind the scenes"@ { assert(names[3] == t); }
        else if t == "deleted scenes"@ { assert(names[4] == t); }
        else if t == "interviews"@ { assert(names[5] == t); }
        else if t == "scenes"@ { assert(names[6] == t); }
        else if t == "shorts"@ { assert(names[7] == t); }
        else if t == "clips"@ { assert(names[8] == t); }
        else { assert(names[9] == t); }
    }
    if names.contains(t) {
        let i = choose|i: int| 0 <= i < names.len() && names[i] == t;
        assert(0 <= i < 10);
    }
}

/// An extras row whose other columns are in order is accepted exactly when
/// its extra-type column names one of Jellyfin's ten extras folders
/// (`extras`, `featurettes`, `trailers`, `behind the scenes`,
/// `deleted scenes`, `interviews`, `scenes`, `shorts`, `clips`, `other`),
/// and the row keeps that name: for a movie extra the fourth column, for a
/// TV extra the fifth.
pub proof fn lemma_extra_types_accepted(f: Seq<Seq<char>>, t: Seq<char>)
    requires
        field_at(f, 0) is Some,
        field_at(f, 1) == Some("movie-extra"@) || field_at(f, 1) == Some("tv-extra"@),
        field_at(f, 1) == Some("movie-extra"@) ==> number_at(f, 2, Column::MovieId, u32_max()) is Ok
            && field_at(f, 3) == Some(t) && field_at(f, 4) is Some && optional_number_at(
            f,
            5,
            Column::Duration,
            u64_max(),
        ) is Ok,
        field_at(f, 1) == Some("tv-extra"@) ==> number_at(f, 2, Column::SeriesId, u32_max()) is Ok
            && optional_number_at(f, 3, Column::Season, u32_max()) is Ok && field_at(f, 4) == Some(t)
            && field_at(f, 5) is Some && optional_number_at(f, 6, Column::Duration, u64_max()) is Ok,
    ensures
        parse_record_spec(f) is Ok <==> jellyfin_extra_folders().contains(t),
        parse_record_spec(f) is Ok ==> row_extra_type(parse_record_spec(f)->Ok_0) == Some(t),
{
    reveal_strlit("tv");
    reveal_strlit("movie");
    reveal_strlit("movie-extra");
    reveal_strlit("tv-extra");
    assert("movie-extra"@ != "tv"@);
    assert("movie-extra"@ != "movie"@);
    assert("tv-extra"@.len() == 8 && "tv"@.len() == 2 && "movie"@.len() == 5);
    assert("tv-extra"@ != "tv"@);
    assert("tv-extra"@ != "movie"@);
    assert("tv-extra"@ != "movie-extra"@);
    lemma_extra_folders(t);
}

pub open spec fn opt_u32(o: Option<nat>) -> Option<u32> {
    match o {
        Some(v) => Some(v as u32),
        None => None,
    }
}

pub open spec fn opt_u64(o: Option<nat>) -> Option<u64> {
    match o {
        Some(v) => Some(v as u64),
        None => None,
    }
}

/// `tv | series id | season | episode [| expected title]`
pub open spec fn tv_row(f: Seq<Seq<char>>, source: Seq<char>) -> Result<RowV, RowErrorV> {
    match required(f, 4, Column::Episode) {
        Err(e) => Err(e),
        Ok(et) => match episode_range_spec(et) {
            Err(e) => Err(e),
            Ok((episode, episode_end)) => match number_at(f, 2, Column::SeriesId, u32_max()) {
                Err(e) => Err(e),
                Ok(series_id) => match number_at(f, 3, Column::Season, u32_max()) {
                    Err(e) => Err(e),
                    Ok(season) => Ok(
                        RowV::Tv {
                            source,
                            series_id: series_id as u32,
                            season: season as u32,
                            episode,
                            episode_end,
                            expected_title: field_at(f, 5),
                        },
                    ),
                },
            },
        },
    }
}

/// `movie | movie id [| expected title]`
pub open spec fn movie_row(f: Seq<Seq<char>>, source: Seq<char>) -> Result<RowV, RowErrorV> {
    match number_at(f, 2, Column::MovieId, u32_max()) {
        Err(e) => Err(e),
        Ok(movie_id) => Ok(
            RowV::Movie { source, movie_id: movie_id as u32, expected_title: field_at(f, 3) },
        ),
    }
}

/// `movie-extra | movie id | extra type | name [| duration secs]`
pub open spec fn movie_extra_row(f: Seq<Seq<char>>, source: Seq<char>) -> Result<RowV, RowErrorV> {
    match number_at(f, 2, Column::MovieId, u32_max()) {
        Err(e) => Err(e),
        Ok(movie_id) => match extra_type_at(f, 3) {
            Err(e) => Err(e),
            Ok(extra_type) => match required(f, 4, Column::Name) {
                Err(e) => Err(e),
                Ok(name) => match optional_number_at(f, 5, Column::Duration, u64_max()) {
                    Err(e) => Err(e),
                    Ok(d) => Ok(
                        RowV::MovieExtra {
                            source,
                            movie_id: movie_id as u32,
                            extra_type,
                            name,
                            expected_duration: opt_u64(d),
                        },
                    ),
                },
            },
        },
    }
}

/// `tv-extra | series id | [season] | extra type | name [| duration secs]`
pub open spec fn tv_extra_row(f: Seq<Seq<char>>, source: Seq<char>) -> Result<RowV, RowErrorV> {
    match number_at(f, 2, Column::SeriesId, u32_max()) {
        Err(e) => Err(e),
        Ok(series_id) => match optional_number_at(f, 3, Column::Season, u32_max()) {
            Err(e) => Err(e),
            Ok(season) => match extra_type_at(f, 4) {
                Err(e) => Err(e),
                Ok(extra_type) => match required(f, 5, Column::Name) {
                    Err(e) => Err(e),
                    Ok(name) => match optional_number_at(f, 6, Column::Duration, u64_max()) {
                        Err(e) => Err(e),
                        Ok(d) => Ok(
                            RowV::TvExtra {
                                source,
                                series_id: series_id as u32,
                                season: opt_u32(season),
                                extra_type,
                                name,
                                expected_duration: opt_u64(d),
                            },
                        ),
                    },
                },
            },
        },
    }
}

/// `manual | new path [| duration secs]`
pub open spec fn manual_row(f: Seq<Seq<char>>, source: Seq<char>) -> Result<RowV, RowErrorV> {
    match required(f, 2, Column::NewName) {
        Err(e) => Err(e),
        Ok(new_name) => match optional_number_at(f, 3, Column::Duration, u64_max()) {
            Err(e) => Err(e),
            Ok(d) => Ok(RowV::Manual { source, new_name, expected_duration: opt_u64(d) }),
        },
    }
}

/// A manifest row from its fields: the source, the kind, then the columns
/// of that kind.
pub open spec fn parse_record_spec(f: Seq<Seq<char>>) -> Result<RowV, RowErrorV> {
    match required(f, 0, Column::Source) {
        Err(e) => Err(e),
        Ok(source) => match required(f, 1, Column::Kind) {
            Err(e) => Err(e),
            Ok(kind) => if kind == "tv"@ {
                tv_row(f, source)
            } else if kind == "movie"@ {
                movie_row(f, source)
            } else if kind == "movie-extra"@ {
                movie_extra_row(f, source)
            } else if kind == "tv-extra"@ {
                tv_extra_row(f, source)
            } else if kind == "manual"@ {
                manual_row(f, source)
            } else {
                Err(RowErrorV::UnknownKind { text: kind })
            },
        },
    }
}

pub open spec fn row_result_view(r: Result<ManifestRow, RowError>) -> Result<RowV, RowErrorV> {
    match r {
        Ok(row) => Ok(row@),
        Err(e) => Err(e@),
    }
}

/// The trimmed field at `idx`, or the error that the column is missing.
pub fn field(fields: &[String], idx: usize, column: Column) -> (r: Result<&str, RowError>)
    ensures
        match required(text::views(fields@), idx as int, column) {
            Ok(t) => r matches Ok(s) && s@ == t,
            Err(e) => r matches Err(err) && err@ == e,
        },
{
    if idx < fields.len() {
        let t = trim_str(fields[idx].as_str());
        if t.unicode_len() > 0 {
            return Ok(t);
        }
    }
    Err(RowError::MissingColumn(column))
}

/// The field at `idx`, when it is there and not blank.
pub fn optional_field(fields: &[String], idx: usize) -> (r: Option<&str>)
    ensures
        crate::naming::opt_chars(r) == field_at(text::views(fields@), idx as int),
{
    if idx < fields.len() {
        let t = trim_str(fields[idx].as_str());
        if t.unicode_len() > 0 {
            return Some(t);
        }
    }
    None
}

/// The field at `idx` as an unsigned number no larger than `max`.
pub fn parse_field(fields: &[String], idx: usize, column: Column, max: u64) -> (r: Result<u64, RowError>)
    ensures
        match number_at(text::views(fields@), idx as int, column, max as nat) {
            Ok(v) => r == Ok::<u64, RowError>(v as u64),
            Err(e) => r matches Err(err) && err@ == e,
        },
        r matches Ok(v) ==> v <= max,
        number_at(text::views(fields@), idx as int, column, max as nat) matches Ok(v) ==> v <= max,
{
    proof {
        match required(text::views(fields@), idx as int, column) {
            Ok(t) => number::lemma_parse_unsigned_bound(t, max as nat),
            Err(_) => {},
        }
    }
    let t = field(fields, idx, column)?;
    match parse_unsigned_str(t, max) {
        Ok(v) => Ok(v),
        Err(cause) => Err(RowError::InvalidNumber { column, text: String::from_str(t), cause }),
    }
}

/// The field at `idx` as an unsigned number no larger than `max`, when it is
/// there and not blank.
pub fn parse_optional_field(fields: &[String], idx: usize, column: Column, max: u64) -> (r: Result<
    Option<u64>,
    RowError,
>)
    ensures
        match optional_number_at(text::views(fields@), idx as int, column, max as nat) {
            Ok(Some(v)) => r == Ok::<Option<u64>, RowError>(Some(v as u64)),
            Ok(None) => r == Ok::<Option<u64>, RowError>(None),
            Err(e) => r matches Err(err) && err@ == e,
        },
        r matches Ok(Some(v)) ==> v <= max,
        optional_number_at(text::views(fields@), idx as int, column, max as nat) matches Ok(Some(v))
            ==> v <= max,
{
    proof {
        match field_at(text::views(fields@), idx as int) {
            Some(t) => number::lemma_parse_unsigned_bound(t, max as nat),
            None => {},
        }
    }
    match optional_field(fields, idx) {
        None => Ok(None),
        Some(t) => match parse_unsigned_str(t, max) {
            Ok(v) => Ok(Some(v)),
            Err(cause) => Err(
                RowError::InvalidNumber { column, text: String::from_str(t), cause },
            ),
        },
    }
}


/// `3` -> (3, None); `3-4` -> (3, Some(4)) for a rip holding several
/// episodes in one file.
pub fn parse_episode_range(s: &str) -> (r: Result<(u32, Option<u32>), RowError>)
    ensures
        match episode_range_spec(s@) {
            Ok(v) => r == Ok::<(u32, Option<u32>), RowError>(v),
            Err(e) => r matches Err(err) && err@ == e,
        },
        r matches Ok((start, Some(end))) ==> start < end,
{
    let cs = chars_of(s);
    let d = find_char(&cs, '-');
    proof {
        text::lemma_index_from(s@, '-', 0);
        number::lemma_parse_unsigned_bound(s@, u32_max());
    }
    if d >= cs.len() {
        return match parse_unsigned_str(s, 0xffff_ffff) {
            Ok(v) => Ok((v as u32, None)),
            Err(cause) => Err(RowError::InvalidEpisode { text: String::from_str(s), cause }),
        };
    }
    let first = trim_str(s.substring_char(0, d));
    let second = trim_str(s.substring_char(d + 1, cs.len()));
    assert(s@.subrange(0, d as int) =~= s@.take(d as int));
    assert(s@.subrange(d + 1, cs.len() as int) =~= s@.skip(d + 1));
    proof {
        number::lemma_parse_unsigned_bound(first@, u32_max());
        number::lemma_parse_unsigned_bound(second@, u32_max());
    }
    let start = match parse_unsigned_str(first, 0xffff_ffff) {
        Ok(v) => v,
        Err(cause) => {
            return Err(RowError::InvalidEpisodeRange { text: String::from_str(s), cause });
        },
    };
    let end = match parse_unsigned_str(second, 0xffff_ffff) {
        Ok(v) => v,
        Err(cause) => {
            return Err(RowError::InvalidEpisodeRange { text: String::from_str(s), cause });
        },
    };
    if end <= start {
        return Err(RowError::BackwardsEpisodeRange { text: String::from_str(s) });
    }
    Ok((start as u32, Some(end as u32)))
}

fn extra_type_field(fields: &[String], idx: usize) -> (r: Result<String, RowError>)
    ensures
        match extra_type_at(text::views(fields@), idx as int) {
            Ok(t) => r matches Ok(s) && s@ == t,
            Err(e) => r matches Err(err) && err@ == e,
        },
{
    let t = field(fields, idx, Column::ExtraType)?;
    if eq_str(t, "extras") || eq_str(t, "featurettes") || eq_str(t, "trailers") || eq_str(
        t,
        "behind the scenes",
    ) || eq_str(t, "deleted scenes") || eq_str(t, "interviews") || eq_str(t, "scenes")
        || eq_str(t, "shorts") || eq_str(t, "clips") || eq_str(t, "other") {
        Ok(String::from_str(t))
    } else {
        Err(RowError::UnknownExtraType { text: String::from_str(t) })
    }
}

fn parse_tv(fields: &[String], source: String) -> (r: Result<ManifestRow, RowError>)
    ensures
        row_result_view(r) == tv_row(text::views(fields@), source@),
{
    let (episode, episode_end) = parse_episode_range(field(fields, 4, Column::Episode)?)?;
    let series_id = parse_field(fields, 2, Column::SeriesId, 0xffff_ffff)?;
    let season = parse_field(fields, 3, Column::Season, 0xffff_ffff)?;
    let expected_title = match optional_field(fields, 5) {
        Some(t) => Some(String::from_str(t)),
        None => None,
    };
    Ok(
        ManifestRow::Tv {
            source,
            series_id: series_id as u32,
            season: season as u32,
            episode,
            episode_end,
            expected_title,
        },
    )
}

fn parse_movie(fields: &[String], source: String) -> (r: Result<ManifestRow, RowError>)
    ensures
        row_result_view(r) == movie_row(text::views(fields@), source@),
{
    let movie_id = parse_field(fields, 2, Column::MovieId, 0xffff_ffff)?;
    let expected_title = match optional_field(fields, 3) {
        Some(t) => Some(String::from_str(t)),
        None => None,
    };
    Ok(ManifestRow::Movie { source, movie_id: movie_id as u32, expected_title })
}

fn parse_movie_extra(fields: &[String], source: String) -> (r: Result<ManifestRow, RowError>)
    ensures
        row_result_view(r) == movie_extra_row(text::views(fields@), source@),
{
    let movie_id = parse_field(fields, 2, Column::MovieId, 0xffff_ffff)?;
    let extra_type = extra_type_field(fields, 3)?;
    let name = String::from_str(field(fields, 4, Column::Name)?);
    let expected_duration = parse_optional_field(
        fields,
        5,
        Column::Duration,
        0xffff_ffff_ffff_ffff,
    )?;
    Ok(
        ManifestRow::MovieExtra {
            source,
            movie_id: movie_id as u32,
            extra_type,
            name,
            expected_duration,
        },
    )
}

fn parse_tv_extra(fields: &[String], source: String) -> (r: Result<ManifestRow, RowError>)
    ensures
        row_result_view(r) == tv_extra_row(text::views(fields@), source@),
{
    let series_id = parse_field(fields, 2, Column::SeriesId, 0xffff_ffff)?;
    let season = parse_optional_field(fields, 3, Column::Season, 0xffff_ffff)?;
    let extra_type = extra_type_field(fields, 4)?;
    let name = String::from_str(field(fields, 5, Column::Name)?);
    let expected_duration = parse_optional_field(
        fields,
        6,
        Column::Duration,
        0xffff_ffff_ffff_ffff,
    )?;
    let season = match season {
        Some(s) => Some(s as u32),
        None => None,
    };
    Ok(
        ManifestRow::TvExtra {
            source,
            series_id: series_id as u32,
            season,
            extra_type,
            name,
            expected_duration,
        },
    )
}

fn parse_manual(fields: &[String], source: String) -> (r: Result<ManifestRow, RowError>)
    ensures
        row_result_view(r) == manual_row(text::views(fields@), source@),
{
    let new_name = String::from_str(field(fields, 2, Column::NewName)?);
    let expected_duration = parse_optional_field(
        fields,
        3,
        Column::Duration,
        0xffff_ffff_ffff_ffff,
    )?;
    Ok(ManifestRow::Manual { source, new_name, expected_duration })
}

/// A manifest row from its fields.
pub fn parse_record(fields: &[String]) -> (r: Result<ManifestRow, RowError>)
    ensures
        row_result_view(r) == parse_record_spec(text::views(fields@)),
{
    let source = String::from_str(field(fields, 0, Column::Source)?);
    let kind = field(fields, 1, Column::Kind)?;
    if eq_str(kind, "tv") {
        parse_tv(fields, source)
    } else if eq_str(kind, "movie") {
        parse_movie(fields, source)
    } else if eq_str(kind, "movie-extra") {
        parse_movie_extra(fields, source)
    } else if eq_str(kind, "tv-extra") {
        parse_tv_extra(fields, source)
    } else if eq_str(kind, "manual") {
        parse_manual(fields, source)
    } else {
        Err(RowError::UnknownKind { text: String::from_str(kind) })
    }
}


/// The rows that follow, parsed in order; the first row that is not a valid
/// manifest row decides the error, with its line number.
pub open spec fn parse_rows(rs: Seq<(u64, Seq<Seq<char>>)>) -> Result<Seq<RowV>, (u64, RowErrorV)>
    decreases rs.len(),
{
    if rs.len() == 0 {
        Ok(Seq::empty())
    } else {
        match parse_rows(rs.drop_last()) {
            Err(e) => Err(e),
            Ok(done) => match parse_record_spec(rs.last().1) {
                Ok(r) => Ok(done.push(r)),
                Err(e) => Err((rs.last().0, e)),
            },
        }
    }
}

proof fn lemma_rows_of_content(ls: Seq<Seq<char>>, k: int)
    requires
        0 <= k <= ls.len(),
        k <= u64::MAX,
    ensures
        ({
            let rs = rows_of(ls, k);
            &&& forall|i: int|
                #![trigger rs[i]]
                0 <= i < rs.len() ==> 1 <= rs[i].0 <= k && is_content(ls[rs[i].0 - 1]) && rs[i].1
                    == row_fields(ls[rs[i].0 - 1])
            &&& forall|i: int, j: int|
                #![trigger rs[i], rs[j]]
                0 <= i < j < rs.len() ==> rs[i].0 < rs[j].0
            &&& forall|m: int|
                0 <= m < k && #[trigger] is_content(ls[m]) ==> exists|i: int|
                    0 <= i < rs.len() && #[trigger] rs[i].0 == m + 1
        }),
    decreases k,
{
    if k > 0 {
        lemma_rows_of_content(ls, k - 1);
        let prev = rows_of(ls, k - 1);
        let rs = rows_of(ls, k);
        if is_content(ls[k - 1]) {
            assert(rs == prev.push((k as u64, row_fields(ls[k - 1]))));
            assert forall|i: int|
                #![trigger rs[i]]
                0 <= i < rs.len() implies 1 <= rs[i].0 <= k && is_content(ls[rs[i].0 - 1])
                    && rs[i].1 == row_fields(ls[rs[i].0 - 1]) by {
                if i < prev.len() {
                    assert(rs[i] == prev[i]);
                }
            }
            assert forall|i: int, j: int|
                #![trigger rs[i], rs[j]]
                0 <= i < j < rs.len() implies rs[i].0 < rs[j].0 by {
                assert(rs[i] == prev[i]);
                if j < prev.len() {
                    assert(rs[j] == prev[j]);
                }
            }
            assert forall|m: int|
                0 <= m < k && #[trigger] is_content(ls[m]) implies exists|i: int|
                    0 <= i < rs.len() && #[trigger] rs[i].0 == m + 1 by {
                if m < k - 1 {
                    let i = choose|i: int| 0 <= i < prev.len() && #[trigger] prev[i].0 == m + 1;
                    assert(rs[i] == prev[i]);
                } else {
                    assert(rs[prev.len() as int].0 == m + 1);
                }
            }
        } else {
            assert(rs == prev);
        }
    }
}

/// The rows of a text are its content lines (neither blank nor a `#`
/// comment), each once and in file order, each with its 1-based line number
/// and its trimmed fields.
pub proof fn lemma_rows_are_content_lines(t: Seq<char>)
    requires
        text::lines(t).len() <= u64::MAX,
    ensures
        ({
            let ls = text::lines(t);
            let rs = rows(t);
            &&& forall|i: int|
                #![trigger rs[i]]
                0 <= i < rs.len() ==> 1 <= rs[i].0 <= ls.len() && is_content(ls[rs[i].0 - 1])
                    && rs[i].1 == row_fields(ls[rs[i].0 - 1])
            &&& forall|i: int, j: int|
                #![trigger rs[i], rs[j]]
                0 <= i < j < rs.len() ==> rs[i].0 < rs[j].0
            &&& forall|m: int|
                0 <= m < ls.len() && #[trigger] is_content(ls[m]) ==> exists|i: int|
                    0 <= i < rs.len() && #[trigger] rs[i].0 == m + 1
        }),
{
    let ls = text::lines(t);
    lemma_rows_of_content(ls, ls.len() as int);
    assert(rows(t) == rows_of(ls, ls.len() as int));
}

/// The records of the rows before `k` all parse.
pub open spec fn records_parse_upto(rs: Seq<(u64, Seq<Seq<char>>)>, k: int) -> bool {
    forall|j: int| 0 <= j < k ==> #[trigger] parse_record_spec(rs[j].1) is Ok
}

/// Parsing the rows succeeds exactly when every row's record parses, and
/// gives the records in row order; otherwise it fails with the line number
/// and the error of the first row that does not parse.
pub proof fn lemma_parse_rows_first_failure(rs: Seq<(u64, Seq<Seq<char>>)>)
    ensures
        records_parse_upto(rs, rs.len() as int) ==> parse_rows(rs) == Ok::<
            Seq<RowV>,
            (u64, RowErrorV),
        >(Seq::new(rs.len(), |i: int| parse_record_spec(rs[i].1)->Ok_0)),
        forall|k: int|
            0 <= k < rs.len() && records_parse_upto(rs, k) && #[trigger] parse_record_spec(
                rs[k].1,
            ) is Err ==> parse_rows(rs) == Err::<Seq<RowV>, (u64, RowErrorV)>(
                (rs[k].0, parse_record_spec(rs[k].1)->Err_0),
            ),
    decreases rs.len(),
{
    if rs.len() > 0 {
        let prior = rs.drop_last();
        let n = rs.len() - 1;
        lemma_parse_rows_first_failure(prior);
        assert forall|j: int| 0 <= j < n implies prior[j] == rs[j] by {}
        if records_parse_upto(rs, rs.len() as int) {
            assert(records_parse_upto(prior, n)) by {
                assert forall|j: int| 0 <= j < n implies #[trigger] parse_record_spec(prior[j].1) is Ok by {
                    assert(prior[j] == rs[j]);
                }
            }
            assert(parse_record_spec(rs[n].1) is Ok);
            assert(rs.last() == rs[n]);
            assert(Seq::new(prior.len(), |i: int| parse_record_spec(prior[i].1)->Ok_0).push(
                parse_record_spec(rs.last().1)->Ok_0,
            ) =~= Seq::new(rs.len(), |i: int| parse_record_spec(rs[i].1)->Ok_0));
        }
        assert forall|k: int|
            0 <= k < rs.len() && records_parse_upto(rs, k) && #[trigger] parse_record_spec(
                rs[k].1,
            ) is Err implies parse_rows(rs) == Err::<Seq<RowV>, (u64, RowErrorV)>(
            (rs[k].0, parse_record_spec(rs[k].1)->Err_0),
        ) by {
            if k == n {
                assert(records_parse_upto(prior, n)) by {
                    assert forall|j: int| 0 <= j < n implies #[trigger] parse_record_spec(prior[j].1) is Ok by {
                        assert(prior[j] == rs[j]);
                        assert(parse_record_spec(rs[j].1) is Ok);
                    }
                }
            } else {
                assert(prior[k] == rs[k]);
                assert(records_parse_upto(prior, k)) by {
                    assert forall|j: int| 0 <= j < k implies #[trigger] parse_record_spec(prior[j].1) is Ok by {
                        assert(prior[j] == rs[j]);
                        assert(parse_record_spec(rs[j].1) is Ok);
                    }
                }
            }
        }
    } else {
        assert(Seq::new(rs.len(), |i: int| parse_record_spec(rs[i].1)->Ok_0) =~= Seq::<RowV>::empty());
    }
}

/// Which of the two files a text is meant to be.
#[derive(Debug, Clone, Copy, PartialEq, Eq, Structural)]
pub enum FileKind {
    Manifest,
    RenamePlan,
}

pub open spec fn marker_of(kind: FileKind) -> Seq<char> {
    match kind {
        FileKind::Manifest => MANIFEST_MARKER@,
        FileKind::RenamePlan => RENAMES_MARKER@,
    }
}

pub open spec fn other_kind(kind: FileKind) -> FileKind {
    match kind {
        FileKind::Manifest => FileKind::RenamePlan,
        FileKind::RenamePlan => FileKind::Manifest,
    }
}

/// A first line that is not the expected marker: the other file's marker,
/// or none at all. Each holds the kind of file that was expected.
#[derive(Debug, Clone, Copy, PartialEq, Eq, Structural)]
pub enum MarkerError {
    Missing(FileKind),
    WrongKind(FileKind),
}

/// The check of the first line of a file of the given kind.
pub open spec fn marker_check(t: Seq<char>, kind: FileKind) -> Result<(), MarkerError> {
    let l = text::trim(text::first_line(t));
    if l == marker_of(kind) {
        Ok(())
    } else if l == marker_of(other_kind(kind)) {
        Err(MarkerError::WrongKind(kind))
    } else {
        Err(MarkerError::Missing(kind))
    }
}

pub open spec fn marker_error_text(e: MarkerError) -> Seq<char> {
    match e {
        MarkerError::Missing(FileKind::Manifest) =>
            "missing '#lyrebird:manifest' marker on the first line (lyrebird template writes it)"@,
        MarkerError::Missing(FileKind::RenamePlan) =>
            "missing '#lyrebird:renames' marker on the first line (lyrebird resolve writes it)"@,
        MarkerError::WrongKind(FileKind::RenamePlan) =>
            "this is a manifest, not a rename plan: run lyrebird resolve on it first"@,
        MarkerError::WrongKind(FileKind::Manifest) =>
            "this is a rename plan, not a manifest: pass it to lyrebird validate or apply"@,
    }
}

impl MarkerError {
    pub fn message(&self) -> (r: &'static str)
        ensures
            r@ == marker_error_text(*self),
    {
        match self {
            MarkerError::Missing(FileKind::Manifest) =>
                "missing '#lyrebird:manifest' marker on the first line (lyrebird template writes it)",
            MarkerError::Missing(FileKind::RenamePlan) =>
                "missing '#lyrebird:renames' marker on the first line (lyrebird resolve writes it)",
            MarkerError::WrongKind(FileKind::RenamePlan) =>
                "this is a manifest, not a rename plan: run lyrebird resolve on it first",
            MarkerError::WrongKind(FileKind::Manifest) =>
                "this is a rename plan, not a manifest: pass it to lyrebird validate or apply",
        }
    }
}

/// Checks that the first line of `content` is the marker of `kind`.
pub fn expect_marker(content: &str, kind: FileKind) -> (r: Result<(), MarkerError>)
    ensures
        r == marker_check(content@, kind),
{
    let first = trim_str(text::first_line_str(content));
    let (expected, other) = match kind {
        FileKind::Manifest => (MANIFEST_MARKER, RENAMES_MARKER),
        FileKind::RenamePlan => (RENAMES_MARKER, MANIFEST_MARKER),
    };
    if eq_str(first, expected) {
        Ok(())
    } else if eq_str(first, other) {
        Err(MarkerError::WrongKind(kind))
    } else {
        Err(MarkerError::Missing(kind))
    }
}

/// Why a manifest could not be read.
#[derive(Debug, Clone)]
pub enum ManifestError {
    Marker(MarkerError),
    Row { line: u64, error: RowError },
}

pub open spec fn manifest_error_text(e: ManifestError) -> Seq<char> {
    match e {
        ManifestError::Marker(m) => marker_error_text(m),
        ManifestError::Row { line, error } => "manifest line "@ + number::decimal(line as nat)
            + ": "@ + row_error_text(error@),
    }
}

impl ManifestError {
    pub fn message(&self) -> (r: String)
        ensures
            r@ == manifest_error_text(*self),
    {
        match self {
            ManifestError::Marker(m) => String::from_str(m.message()),
            ManifestError::Row { line, error } => {
                let mut out = String::from_str("manifest line ");
                push_decimal(&mut out, *line);
                out.append(": ");
                let detail = error.message();
                out.append(detail.as_str());
                out
            },
        }
    }
}

/// The outcome of parsing the rows, as `parse_rows` gives it; nothing for a
/// marker error, which row parsing never gives.
pub open spec fn rows_result_view(r: Result<Vec<ManifestRow>, ManifestError>) -> Option<
    Result<Seq<RowV>, (u64, RowErrorV)>,
> {
    match r {
        Ok(v) => Some(Ok(v@.map_values(|row: ManifestRow| row@))),
        Err(ManifestError::Row { line, error }) => Some(Err((line, error@))),
        Err(ManifestError::Marker(_)) => None,
    }
}

/// Parses the rows of a manifest (blank lines and `#` comments skipped).
pub fn parse_reader(input: &str) -> (r: Result<Vec<ManifestRow>, ManifestError>)
    ensures
        rows_result_view(r) == Some(parse_rows(rows(input@))),
{
    let rs = tsv_lines(input);
    let ghost rv = rows_view(rs@);
    let mut out: Vec<ManifestRow> = Vec::new();
    let mut i: usize = 0;
    assert(rv.take(0).len() == 0);
    assert(out@.map_values(|row: ManifestRow| row@) =~= Seq::<RowV>::empty());
    while i < rs.len()
        invariant
            rv == rows_view(rs@),
            rv == rows(input@),
            i <= rs.len(),
            parse_rows(rv.take(i as int)) == Ok::<Seq<RowV>, (u64, RowErrorV)>(
                out@.map_values(|row: ManifestRow| row@),
            ),
        decreases rs.len() - i,
    {
        assert(rv.take(i + 1).drop_last() =~= rv.take(i as int));
        assert(rv.take(i + 1).last() == row_view(rs@[i as int]));
        match parse_record(rs[i].fields.as_slice()) {
            Ok(row) => {
                let ghost prev = out@.map_values(|row: ManifestRow| row@);
                out.push(row);
                assert(out@.map_values(|row: ManifestRow| row@) =~= prev.push(out@.last()@));
            },
            Err(error) => {
                proof {
                    lemma_parse_rows_prefix_error(rv, i as int + 1);
                }
                return Err(ManifestError::Row { line: rs[i].line, error });
            },
        }
        i = i + 1;
    }
    assert(rv.take(rs.len() as int) =~= rv);
    Ok(out)
}

/// Once the rows up to `k` fail, all of them fail the same way.
pub proof fn lemma_parse_rows_prefix_error(rv: Seq<(u64, Seq<Seq<char>>)>, k: int)
    requires
        0 <= k <= rv.len(),
        parse_rows(rv.take(k)) is Err,
    ensures
        parse_rows(rv) == parse_rows(rv.take(k)),
    decreases rv.len() - k,
{
    if k < rv.len() {
        assert(rv.take(k + 1).drop_last() =~= rv.take(k));
        lemma_parse_rows_prefix_error(rv, k + 1);
    } else {
        assert(rv.take(k) =~= rv);
    }
}

/// The rows of a manifest file: its `#lyrebird:manifest` first line, then
/// its rows.
pub fn parse_text(content: &str) -> (r: Result<Vec<ManifestRow>, ManifestError>)
    ensures
        match marker_check(content@, FileKind::Manifest) {
            Err(m) => r == Err::<Vec<ManifestRow>, ManifestError>(ManifestError::Marker(m)),
            Ok(_) => rows_result_view(r) == Some(parse_rows(rows(content@))),
        },
{
    match expect_marker(content, FileKind::Manifest) {
        Err(m) => Err(ManifestError::Marker(m)),
        Ok(()) => parse_reader(content),
    }
}


/// The comment under the marker of a fresh manifest.
pub const TEMPLATE_HELP: &'static str = "# source | kind (tv, movie, movie-extra, tv-extra, manual) | the columns of that kind";

/// A manifest row per file, with only its source filled in.
pub open spec fn template_rows(files: Seq<Seq<char>>) -> Seq<char>
    decreases files.len(),
{
    if files.len() == 0 {
        Seq::empty()
    } else {
        template_rows(files.drop_last()) + files.last() + " |\n"@
    }
}

/// A fresh manifest: the marker, a line of help, then one row per file for
/// the kind and ids to be filled in.
pub open spec fn template_spec(files: Seq<Seq<char>>) -> Seq<char> {
    MANIFEST_MARKER@ + "\n"@ + TEMPLATE_HELP@ + "\n"@ + template_rows(files)
}

/// A fresh manifest from `template_text` opens with the manifest marker, so
/// the marker check that parsing starts with accepts it.
pub proof fn lemma_template_marked(files: Seq<Seq<char>>)
    ensures
        marker_check(template_spec(files), FileKind::Manifest) == Ok::<(), MarkerError>(()),
{
    reveal_strlit("#lyrebird:manifest");
    reveal_strlit("\n");
    let m = MANIFEST_MARKER@;
    let rest = TEMPLATE_HELP@ + "\n"@ + template_rows(files);
    assert(template_spec(files) =~= m + seq!['\n'] + rest);
    assert(text::lacks(m, '\n'));
    text::lemma_lines_cons(m, rest);
    assert(text::strip_cr(m) == m);
    assert(text::first_line(template_spec(files)) == m);
    assert(!text::is_ws(m[0]));
    assert(!text::is_ws(m.last()));
    text::lemma_trim_noop(m);
}

pub fn template_text(files: &[String]) -> (r: String)
    ensures
        r@ == template_spec(text::views(files@)),
{
    let ghost fv = text::views(files@);
    let mut out = String::from_str(MANIFEST_MARKER);
    out.append("\n");
    out.append(TEMPLATE_HELP);
    out.append("\n");
    let mut i: usize = 0;
    assert(fv.take(0) =~= Seq::<Seq<char>>::empty());
    while i < files.len()
        invariant
            i <= files.len(),
            fv == text::views(files@),
            out@ == MANIFEST_MARKER@ + "\n"@ + TEMPLATE_HELP@ + "\n"@ + template_rows(fv.take(i as int)),
        decreases files.len() - i,
    {
        assert(fv.take(i + 1).drop_last() =~= fv.take(i as int));
        assert(fv.take(i + 1).last() == files@[i as int]@);
        out.append(files[i].as_str());
        out.append(" |\n");
        i = i + 1;
    }
    assert(fv.take(files.len() as int) =~= fv);
    out
}

} // verus!
