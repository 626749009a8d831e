//! The rename plan (`renames.txt`): what `resolve` writes and what
//! `validate` and `apply` read.

use vstd::prelude::*;
use vstd::string::*;

use crate::manifest::{self, expect_marker, tsv_lines, FileKind, MarkerError, RENAMES_MARKER};
use crate::number::{self, parse_unsigned_str, push_decimal, NumberError};
use crate::manifest::{ManifestRow, RowV};
pub use crate::naming::{
    clean_root, extension_of, extra_path, movie_path, sanitize, tv_path, under, with_year,
};
use crate::naming;
use crate::text;
use crate::tmdb::{self, Episode, Movie, Series};

verus! {

/// One planned rename. `new` is relative to the library root, e.g.
/// `The Owl House (2020)/Season 01/The Owl House - s01e01 - A Lying Witch and a Warden.mkv`,
/// or absolute under a configured root.
#[derive(Debug, Clone)]
pub struct RenamePlan {
    pub old: String,
    pub new: String,
    pub expected_duration_secs: Option<u64>,
}

/// A plan, by the characters of its paths.
pub struct PlanV {
    pub old: Seq<char>,
    pub new: Seq<char>,
    pub expected_duration_secs: Option<u64>,
}

impl View for RenamePlan {
    type V = PlanV;

    open spec fn view(&self) -> PlanV {
        PlanV { old: self.old@, new: self.new@, expected_duration_secs: self.expected_duration_secs }
    }
}

/// A plan row together with the line it came from in `renames.txt`, so
/// validation messages can point back at the file.
#[derive(Debug, Clone)]
pub struct PlanEntry {
    pub line: u64,
    pub plan: RenamePlan,
}

pub struct EntryV {
    pub line: u64,
    pub plan: PlanV,
}

impl View for PlanEntry {
    type V = EntryV;

    open spec fn view(&self) -> EntryV {
        EntryV { line: self.line, plan: self.plan@ }
    }
}

pub open spec fn plans_view(v: Seq<RenamePlan>) -> Seq<PlanV> {
    v.map_values(|p: RenamePlan| p@)
}

pub open spec fn entries_view(v: Seq<PlanEntry>) -> Seq<EntryV> {
    v.map_values(|e: PlanEntry| e@)
}

/// One line of a plan: `old | new`, with ` | seconds` when the expected
/// duration is known.
pub open spec fn plan_line(p: PlanV) -> Seq<char> {
    p.old + " | "@ + p.new + match p.expected_duration_secs {
        Some(d) => " | "@ + number::decimal(d as nat),
        None => Seq::empty(),
    } + "\n"@
}

/// The lines of the plans, in order.
pub open spec fn plan_lines(ps: Seq<PlanV>) -> Seq<char>
    decreases ps.len(),
{
    if ps.len() == 0 {
        Seq::empty()
    } else {
        plan_line(ps[0]) + plan_lines(ps.drop_first())
    }
}

/// The text of a plan file: the `#lyrebird:renames` marker, then a line per plan.
pub open spec fn plan_text_spec(ps: Seq<PlanV>) -> Seq<char> {
    RENAMES_MARKER@ + "\n"@ + plan_lines(ps)
}

proof fn lemma_plan_lines_push(ps: Seq<PlanV>, p: PlanV)
    ensures
        plan_lines(ps.push(p)) == plan_lines(ps) + plan_line(p),
    decreases ps.len(),
{
    if ps.len() == 0 {
        assert(ps.push(p).drop_first() =~= Seq::<PlanV>::empty());
        assert(plan_lines(ps.push(p).drop_first()) == Seq::<char>::empty());
        assert(plan_lines(ps) == Seq::<char>::empty());
        assert(plan_lines(ps.push(p)) =~= plan_lines(ps) + plan_line(p));
    } else {
        assert(ps.push(p).drop_first() =~= ps.drop_first().push(p));
        lemma_plan_lines_push(ps.drop_first(), p);
        assert(plan_lines(ps.push(p)) =~= plan_lines(ps) + plan_line(p));
    }
}

/// The content of `renames.txt` for the plans.
pub fn plan_text(plans: &[RenamePlan]) -> (r: String)
    ensures
        r@ == plan_text_spec(plans_view(plans@)),
{
    let mut out = String::from_str(RENAMES_MARKER);
    out.append("\n");
    let mut i: usize = 0;
    while i < plans.len()
        invariant
            i <= plans.len(),
            out@ == RENAMES_MARKER@ + "\n"@ + plan_lines(plans_view(plans@).take(i as int)),
        decreases plans.len() - i,
    {
        let ghost before = out@;
        let plan = &plans[i];
        out.append(plan.old.as_str());
        out.append(" | ");
        out.append(plan.new.as_str());
        match plan.expected_duration_secs {
            Some(d) => {
                out.append(" | ");
                push_decimal(&mut out, d);
            },
            None => {},
        }
        out.append("\n");
        proof {
            let pv = plans_view(plans@);
            assert(pv.take(i + 1) =~= pv.take(i as int).push(pv[i as int]));
            lemma_plan_lines_push(pv.take(i as int), pv[i as int]);
            assert(out@ =~= before + plan_line(pv[i as int]));
        }
        i = i + 1;
    }
    assert(plans_view(plans@).take(plans.len() as int) =~= plans_view(plans@));
    out
}

/// Why a plan could not be read.
#[derive(Debug, Clone)]
pub enum PlanError {
    Marker(MarkerError),
    MissingOld { line: u64 },
    MissingNew { line: u64 },
    InvalidDuration { line: u64, text: String, cause: NumberError },
}

pub enum PlanErrorV {
    Marker(MarkerError),
    MissingOld { line: u64 },
    MissingNew { line: u64 },
    InvalidDuration { line: u64, text: Seq<char>, cause: NumberError },
}

impl View for PlanError {
    type V = PlanErrorV;

    open spec fn view(&self) -> PlanErrorV {
        match self {
            PlanError::Marker(m) => PlanErrorV::Marker(*m),
            PlanError::MissingOld { line } => PlanErrorV::MissingOld { line: *line },
            PlanError::MissingNew { line } => PlanErrorV::MissingNew { line: *line },
            PlanError::InvalidDuration { line, text, cause } => PlanErrorV::InvalidDuration {
                line: *line,
                text: text@,
                cause: *cause,
            },
        }
    }
}

pub open spec fn plan_error_text(e: PlanErrorV) -> Seq<char> {
    match e {
        PlanErrorV::Marker(m) => manifest::marker_error_text(m),
        PlanErrorV::MissingOld { line } => "plan line "@ + number::decimal(line as nat)
            + ": missing old path"@,
        PlanErrorV::MissingNew { line } => "plan line "@ + number::decimal(line as nat)
            + ": missing new path"@,
        PlanErrorV::InvalidDuration { line, text, cause } => "plan line "@ + number::decimal(
            line as nat,
        ) + ": invalid expected_duration_secs '"@ + text + "': "@ + number::number_error_text(
            cause,
        ),
    }
}

impl PlanError {
    pub fn message(&self) -> (r: String)
        ensures
            r@ == plan_error_text(self@),
    {
        match self {
            PlanError::Marker(m) => String::from_str(m.message()),
            PlanError::MissingOld { line } => {
                let mut out = String::from_str("plan line ");
                push_decimal(&mut out, *line);
                out.append(": missing old path");
                out
            },
            PlanError::MissingNew { line } => {
                let mut out = String::from_str("plan line ");
                push_decimal(&mut out, *line);
                out.append(": missing new path");
                out
            },
            PlanError::InvalidDuration { line, text, cause } => {
                let mut out = String::from_str("plan line ");
                push_decimal(&mut out, *line);
                out.append(": invalid expected_duration_secs '");
                out.append(text.as_str());
                out.append("': ");
                out.append(cause.message());
                out
            },
        }
    }
}

/// A plan entry from a row: the old path, the new path, and the optional
/// expected duration in seconds.
pub open spec fn plan_entry_spec(row: (u64, Seq<Seq<char>>)) -> Result<EntryV, PlanErrorV> {
    let (line, f) = row;
    if !(f.len() > 0 && text::trim(f[0]).len() > 0) {
        Err(PlanErrorV::MissingOld { line })
    } else if !(f.len() > 1 && text::trim(f[1]).len() > 0) {
        Err(PlanErrorV::MissingNew { line })
    } else {
        match manifest::field_at(f, 2) {
            None => Ok(
                EntryV {
                    line,
                    plan: PlanV { old: f[0], new: f[1], expected_duration_secs: None },
                },
            ),
            Some(t) => match number::parse_unsigned(t, manifest::u64_max()) {
                Ok(d) => Ok(
                    EntryV {
                        line,
                        plan: PlanV { old: f[0], new: f[1], expected_duration_secs: Some(d as u64) },
                    },
                ),
                Err(cause) => Err(PlanErrorV::InvalidDuration { line, text: t, cause }),
            },
        }
    }
}

/// The entries of the rows that follow; the first row that is no valid plan
/// entry decides the error.
pub open spec fn plan_entries(rs: Seq<(u64, Seq<Seq<char>>)>) -> Result<Seq<EntryV>, PlanErrorV>
    decreases rs.len(),
{
    if rs.len() == 0 {
        Ok(Seq::empty())
    } else {
        match plan_entries(rs.drop_last()) {
            Err(e) => Err(e),
            Ok(done) => match plan_entry_spec(rs.last()) {
                Ok(entry) => Ok(done.push(entry)),
                Err(e) => Err(e),
            },
        }
    }
}

pub open spec fn entries_result_view(r: Result<Vec<PlanEntry>, PlanError>) -> Result<
    Seq<EntryV>,
    PlanErrorV,
> {
    match r {
        Ok(v) => Ok(entries_view(v@)),
        Err(e) => Err(e@),
    }
}

fn plan_entry(row: &manifest::Row) -> (r: Result<PlanEntry, PlanError>)
    ensures
        match plan_entry_spec(manifest::row_view(*row)) {
            Ok(e) => r matches Ok(entry) && entry@ == e,
            Err(e) => r matches Err(err) && err@ == e,
        },
{
    let line = row.line;
    let fields = &row.fields;
    if !(fields.len() > 0 && text::trim_str(fields[0].as_str()).unicode_len() > 0) {
        return Err(PlanError::MissingOld { line });
    }
    if !(fields.len() > 1 && text::trim_str(fields[1].as_str()).unicode_len() > 0) {
        return Err(PlanError::MissingNew { line });
    }
    let old = fields[0].clone();
    let new = fields[1].clone();
    let expected_duration_secs = match manifest::optional_field(fields.as_slice(), 2) {
        None => None,
        Some(t) => match parse_unsigned_str(t, 0xffff_ffff_ffff_ffff) {
            Ok(d) => Some(d),
            Err(cause) => {
                return Err(
                    PlanError::InvalidDuration { line, text: String::from_str(t), cause },
                );
            },
        },
    };
    Ok(PlanEntry { line, plan: RenamePlan { old, new, expected_duration_secs } })
}

/// Once the rows up to `k` fail, all of them fail the same way.
pub proof fn lemma_plan_entries_prefix_error(rv: Seq<(u64, Seq<Seq<char>>)>, k: int)
    requires
        0 <= k <= rv.len(),
        plan_entries(rv.take(k)) is Err,
    ensures
        plan_entries(rv) == plan_entries(rv.take(k)),
    decreases rv.len() - k,
{
    if k < rv.len() {
        assert(rv.take(k + 1).drop_last() =~= rv.take(k));
        lemma_plan_entries_prefix_error(rv, k + 1);
    } else {
        assert(rv.take(k) =~= rv);
    }
}

/// Reads the entries of a plan (blank lines and `#` comments skipped).
pub fn read_reader(input: &str) -> (r: Result<Vec<PlanEntry>, PlanError>)
    ensures
        !(r matches Err(PlanError::Marker(_))),
        entries_result_view(r) == plan_entries(manifest::rows(input@)),
{
    let rs = tsv_lines(input);
    let ghost rv = manifest::rows_view(rs@);
    let mut out: Vec<PlanEntry> = Vec::new();
    let mut i: usize = 0;
    assert(rv.take(0).len() == 0);
    assert(entries_view(out@) =~= Seq::<EntryV>::empty());
    while i < rs.len()
        invariant
            rv == manifest::rows_view(rs@),
            rv == manifest::rows(input@),
            i <= rs.len(),
            plan_entries(rv.take(i as int)) == Ok::<Seq<EntryV>, PlanErrorV>(entries_view(out@)),
        decreases rs.len() - i,
    {
        assert(rv.take(i + 1).drop_last() =~= rv.take(i as int));
        assert(rv.take(i + 1).last() == manifest::row_view(rs@[i as int]));
        match plan_entry(&rs[i]) {
            Ok(entry) => {
                let ghost prev = entries_view(out@);
                out.push(entry);
                assert(entries_view(out@) =~= prev.push(out@.last()@));
            },
            Err(error) => {
                proof {
                    lemma_plan_entries_prefix_error(rv, i as int + 1);
                }
                return Err(error);
            },
        }
        i = i + 1;
    }
    assert(rv.take(rs.len() as int) =~= rv);
    Ok(out)
}

/// The entries of a plan file: its `#lyrebird:renames` first line, then its rows.
pub fn read_text(content: &str) -> (r: Result<Vec<PlanEntry>, PlanError>)
    ensures
        match manifest::marker_check(content@, FileKind::RenamePlan) {
            Err(m) => r matches Err(PlanError::Marker(e)) && e == m,
            Ok(_) => !(r matches Err(PlanError::Marker(_))) && entries_result_view(r)
                == plan_entries(manifest::rows(content@)),
        },
{
    match expect_marker(content, FileKind::RenamePlan) {
        Err(m) => Err(PlanError::Marker(m)),
        Ok(()) => read_reader(content),
    }
}


/// A path that a plan line carries unchanged: not blank, without whitespace
/// at either end, and without the characters that end lines and separate
/// columns.
pub open spec fn is_plain_field(s: Seq<char>) -> bool {
    &&& s.len() > 0
    &&& !text::is_ws(s[0])
    &&& !text::is_ws(s.last())
    &&& text::lacks(s, '\n')
    &&& text::lacks(s, '|')
    &&& text::lacks(s, '\t')
}

/// A plan that reads back as written: plain paths, and an old path that does
/// not start like a comment.
pub open spec fn writable(p: PlanV) -> bool {
    is_plain_field(p.old) && is_plain_field(p.new) && p.old[0] != '#'
}

/// A plan line without its `\n`.
pub open spec fn plan_body(p: PlanV) -> Seq<char> {
    p.old + " | "@ + p.new + match p.expected_duration_secs {
        Some(d) => " | "@ + number::decimal(d as nat),
        None => Seq::empty(),
    }
}

/// The fields a plan line splits into.
pub open spec fn plan_fields(p: PlanV) -> Seq<Seq<char>> {
    match p.expected_duration_secs {
        Some(d) => seq![p.old, p.new, number::decimal(d as nat)],
        None => seq![p.old, p.new],
    }
}

proof fn lemma_lacks_concat(a: Seq<char>, b: Seq<char>, c: char)
    requires
        text::lacks(a, c),
        text::lacks(b, c),
    ensures
        text::lacks(a + b, c),
{
    assert forall|k: int| 0 <= k < (a + b).len() implies (a + b)[k] != c by {
        if k < a.len() {
            assert((a + b)[k] == a[k]);
        } else {
            assert((a + b)[k] == b[k - a.len()]);
        }
    }
}

proof fn lemma_digits_plain(d: nat)
    ensures
        is_plain_field(number::decimal(d)),
{
    number::lemma_decimal_digits(d);
    let s = number::decimal(d);
    assert(number::is_digit(s[0]));
    assert(number::is_digit(s.last()));
}

proof fn lemma_plan_body(p: PlanV)
    requires
        writable(p),
    ensures
        text::lacks(plan_body(p), '\n'),
        plan_body(p).len() > 0,
        plan_body(p)[0] == p.old[0],
        plan_body(p).last() != '\r',
        !text::is_ws(plan_body(p).last()),
        text::trim(plan_body(p)) == plan_body(p),
        manifest::separator(plan_body(p)) == '|',
        manifest::row_fields(plan_body(p)) == plan_fields(p),
        plan_line(p) == plan_body(p) + seq!['\n'],
{
    reveal_strlit(" | ");
    reveal_strlit("\n");
    let sp = seq![' '];
    let bar = seq!['|'];
    assert(text::all_ws(sp));
    assert(text::all_ws(Seq::<char>::empty()));
    assert(text::lacks(sp, '\n') && text::lacks(sp, '|') && text::lacks(sp, '\t'));
    assert(text::lacks(bar, '\n') && text::lacks(bar, '\t'));
    let b = plan_body(p);
    assert(plan_line(p) =~= b + seq!['\n']);
    let head = p.old + sp;
    lemma_lacks_concat(p.old, sp, '|');
    lemma_lacks_concat(p.old, sp, '\n');
    lemma_lacks_concat(p.old, sp, '\t');
    assert(text::trim(Seq::empty() + p.old + sp) == p.old) by {
        text::lemma_trim_padded(Seq::empty(), p.old, sp);
    }
    assert(Seq::<char>::empty() + p.old + sp =~= head);
    match p.expected_duration_secs {
        None => {
            let tail = sp + p.new;
            assert(b =~= head + bar + tail);
            lemma_lacks_concat(sp, p.new, '|');
            lemma_lacks_concat(sp, p.new, '\n');
            lemma_lacks_concat(sp, p.new, '\t');
            lemma_lacks_concat(head, bar, '\n');
            lemma_lacks_concat(head + bar, tail, '\n');
            lemma_lacks_concat(head, bar, '\t');
            lemma_lacks_concat(head + bar, tail, '\t');
            text::lemma_split_cons(head, '|', tail);
            text::lemma_split_single(tail, '|');
            assert(text::trim(sp + p.new + Seq::empty()) == p.new) by {
                text::lemma_trim_padded(sp, p.new, Seq::empty());
            }
            assert(sp + p.new + Seq::<char>::empty() =~= tail);
            assert(b.last() == p.new.last());
            assert(!b.contains('\t'));
            assert(manifest::row_fields(b) =~= plan_fields(p));
        },
        Some(d) => {
            let digits = number::decimal(d as nat);
            lemma_digits_plain(d as nat);
            let mid = sp + p.new + sp;
            let last = sp + digits;
            let tail = mid + bar + last;
            assert(b =~= head + bar + tail);
            lemma_lacks_concat(sp, p.new, '|');
            lemma_lacks_concat(sp + p.new, sp, '|');
            lemma_lacks_concat(sp, digits, '|');
            lemma_lacks_concat(sp, p.new, '\n');
            lemma_lacks_concat(sp + p.new, sp, '\n');
            lemma_lacks_concat(sp, digits, '\n');
            lemma_lacks_concat(sp, p.new, '\t');
            lemma_lacks_concat(sp + p.new, sp, '\t');
            lemma_lacks_concat(sp, digits, '\t');
            lemma_lacks_concat(mid, bar, '\n');
            lemma_lacks_concat(mid + bar, last, '\n');
            lemma_lacks_concat(mid, bar, '\t');
            lemma_lacks_concat(mid + bar, last, '\t');
            lemma_lacks_concat(head, bar, '\n');
            lemma_lacks_concat(head + bar, tail, '\n');
            lemma_lacks_concat(head, bar, '\t');
            lemma_lacks_concat(head + bar, tail, '\t');
            text::lemma_split_cons(head, '|', tail);
            text::lemma_split_cons(mid, '|', last);
            text::lemma_split_single(last, '|');
            text::lemma_trim_padded(sp, p.new, sp);
            assert(text::trim(sp + digits + Seq::empty()) == digits) by {
                text::lemma_trim_padded(sp, digits, Seq::empty());
            }
            assert(sp + digits + Seq::<char>::empty() =~= last);
            assert(b.last() == digits.last());
            assert(!b.contains('\t'));
            assert(text::split(b, '|') =~= seq![head, mid, last]);
            assert(manifest::row_fields(b) =~= plan_fields(p));
        },
    }
    assert(b[0] == p.old[0]);
    text::lemma_trim_noop(b);
}

proof fn lemma_lines_of_plans(ps: Seq<PlanV>)
    requires
        forall|i: int| 0 <= i < ps.len() ==> writable(#[trigger] ps[i]),
    ensures
        text::lines(plan_lines(ps)) == ps.map_values(|p: PlanV| plan_body(p)),
    decreases ps.len(),
{
    if ps.len() == 0 {
        text::lemma_lines_single(Seq::empty());
        assert(ps.map_values(|p: PlanV| plan_body(p)) =~= Seq::<Seq<char>>::empty());
    } else {
        let rest = ps.drop_first();
        assert forall|i: int| 0 <= i < rest.len() implies writable(#[trigger] rest[i]) by {
            assert(rest[i] == ps[i + 1]);
        }
        lemma_lines_of_plans(rest);
        lemma_plan_body(ps[0]);
        let b = plan_body(ps[0]);
        assert(plan_lines(ps) == b + seq!['\n'] + plan_lines(rest));
        text::lemma_lines_cons(b, plan_lines(rest));
        assert(text::strip_cr(b) == b);
        assert(ps.map_values(|p: PlanV| plan_body(p)) =~= seq![b] + rest.map_values(
            |p: PlanV| plan_body(p),
        ));
    }
}

proof fn lemma_marker_facts()
    ensures
        RENAMES_MARKER@.len() > 0,
        text::lacks(RENAMES_MARKER@, '\n'),
        RENAMES_MARKER@[0] == '#',
        !text::is_ws(RENAMES_MARKER@[0]),
        !text::is_ws(RENAMES_MARKER@.last()),
        RENAMES_MARKER@.last() != '\r',
        RENAMES_MARKER@ != manifest::MANIFEST_MARKER@,
{
    reveal_strlit("#lyrebird:renames");
    reveal_strlit("#lyrebird:manifest");
    assert(RENAMES_MARKER@.len() != manifest::MANIFEST_MARKER@.len());
}

proof fn lemma_rows_of_plans(ls: Seq<Seq<char>>, ps: Seq<PlanV>, k: int)
    requires
        ls.len() == ps.len() + 1,
        !manifest::is_content(ls[0]),
        forall|i: int| 0 <= i < ps.len() ==> writable(#[trigger] ps[i]),
        forall|i: int| 0 <= i < ps.len() ==> ls[i + 1] == plan_body(#[trigger] ps[i]),
        1 <= k <= ls.len(),
    ensures
        manifest::rows_of(ls, k) == Seq::new(
            (k - 1) as nat,
            |i: int| ((i + 2) as u64, plan_fields(ps[i])),
        ),
    decreases k,
{
    if k == 1 {
        assert(manifest::rows_of(ls, 0) == Seq::<(u64, Seq<Seq<char>>)>::empty());
        assert(manifest::rows_of(ls, 1) =~= Seq::new(0, |i: int| ((i + 2) as u64, plan_fields(ps[i]))));
    } else {
        lemma_rows_of_plans(ls, ps, k - 1);
        let p = ps[k - 2];
        lemma_plan_body(p);
        assert(ls[k - 1] == plan_body(p));
        assert(manifest::is_content(ls[k - 1]));
        assert(manifest::rows_of(ls, k) =~= Seq::new(
            (k - 1) as nat,
            |i: int| ((i + 2) as u64, plan_fields(ps[i])),
        ));
    }
}

proof fn lemma_entries_of_plans(ps: Seq<PlanV>, n: int)
    requires
        forall|i: int| 0 <= i < ps.len() ==> writable(#[trigger] ps[i]),
        0 <= n <= ps.len(),
    ensures
        plan_entries(Seq::new(n as nat, |i: int| ((i + 2) as u64, plan_fields(ps[i])))) == Ok::<
            Seq<EntryV>,
            PlanErrorV,
        >(Seq::new(n as nat, |i: int| EntryV { line: (i + 2) as u64, plan: ps[i] })),
    decreases n,
{
    let rs = Seq::new(n as nat, |i: int| ((i + 2) as u64, plan_fields(ps[i])));
    if n == 0 {
        assert(Seq::new(0, |i: int| EntryV { line: (i + 2) as u64, plan: ps[i] }) =~= Seq::<
            EntryV,
        >::empty());
    } else {
        lemma_entries_of_plans(ps, n - 1);
        assert(rs.drop_last() =~= Seq::new(
            (n - 1) as nat,
            |i: int| ((i + 2) as u64, plan_fields(ps[i])),
        ));
        let p = ps[n - 1];
        assert(writable(p));
        lemma_plan_body(p);
        let f = plan_fields(p);
        assert(rs.last() == ((n + 1) as u64, f));
        text::lemma_trim_noop(p.old);
        text::lemma_trim_noop(p.new);
        match p.expected_duration_secs {
            Some(d) => {
                lemma_digits_plain(d as nat);
                text::lemma_trim_noop(number::decimal(d as nat));
                number::lemma_parse_decimal(d as nat, manifest::u64_max());
                assert(manifest::field_at(f, 2) == Some(number::decimal(d as nat)));
            },
            None => {
                assert(manifest::field_at(f, 2) is None);
            },
        }
        assert(plan_entry_spec(rs.last()) == Ok::<EntryV, PlanErrorV>(
            EntryV { line: (n + 1) as u64, plan: p },
        ));
        assert(Seq::new(n as nat, |i: int| EntryV { line: (i + 2) as u64, plan: ps[i] }) =~= Seq::new(
            (n - 1) as nat,
            |i: int| EntryV { line: (i + 2) as u64, plan: ps[i] },
        ).push(EntryV { line: (n + 1) as u64, plan: p }));
    }
}

/// A written plan reads back as written: for plans with plain paths, the
/// text `plan_text` writes passes the marker check and reads back as the same
/// plans, on lines 2, 3, ...
pub proof fn lemma_plan_roundtrip(ps: Seq<PlanV>)
    requires
        forall|i: int| 0 <= i < ps.len() ==> writable(#[trigger] ps[i]),
    ensures
        manifest::marker_check(plan_text_spec(ps), FileKind::RenamePlan) == Ok::<(), MarkerError>(()),
        plan_entries(manifest::rows(plan_text_spec(ps))) == Ok::<Seq<EntryV>, PlanErrorV>(
            Seq::new(ps.len(), |i: int| EntryV { line: (i + 2) as u64, plan: ps[i] }),
        ),
{
    reveal_strlit("\n");
    lemma_marker_facts();
    let m = RENAMES_MARKER@;
    let t = plan_text_spec(ps);
    assert(t == m + seq!['\n'] + plan_lines(ps));
    text::lemma_lines_cons(m, plan_lines(ps));
    lemma_lines_of_plans(ps);
    let bodies = ps.map_values(|p: PlanV| plan_body(p));
    let ls = text::lines(t);
    assert(text::strip_cr(m) == m);
    assert(ls == seq![m] + bodies);
    text::lemma_trim_noop(m);
    assert(text::first_line(t) == m);
    assert(!manifest::is_content(ls[0]));
    assert forall|i: int| 0 <= i < ps.len() implies ls[i + 1] == plan_body(#[trigger] ps[i]) by {
        assert(ls[i + 1] == bodies[i]);
    }
    lemma_rows_of_plans(ls, ps, ls.len() as int);
    lemma_entries_of_plans(ps, ps.len() as int);
}


/// Library roots prepended to resolved targets (from `LYREBIRD_TV_ROOT` and
/// `LYREBIRD_MOVIE_ROOT`). Unset means targets stay relative and apply is run
/// from inside the library root. Manual rows are never prefixed.
#[derive(Debug, Clone)]
pub struct Roots {
    pub tv: Option<String>,
    pub movie: Option<String>,
}

impl Default for Roots {
    fn default() -> (r: Roots)
        ensures
            r.tv is None && r.movie is None,
    {
        Roots { tv: None, movie: None }
    }
}

/// What TMDB said about a series, by its id.
#[derive(Debug, Clone)]
pub struct SeriesEntry {
    pub id: u32,
    pub series: Series,
}

/// What TMDB said about one episode of a series.
#[derive(Debug, Clone)]
pub struct EpisodeEntry {
    pub series_id: u32,
    pub season: u32,
    pub episode: u32,
    pub details: Episode,
}

/// What TMDB said about a movie, by its id.
#[derive(Debug, Clone)]
pub struct MovieEntry {
    pub id: u32,
    pub movie: Movie,
}

/// The TMDB answers that resolution reads: the lookups that `lookups` asks
/// for, as the command line fetched them.
#[derive(Debug, Clone)]
pub struct Catalog {
    pub series: Vec<SeriesEntry>,
    pub episodes: Vec<EpisodeEntry>,
    pub movies: Vec<MovieEntry>,
}

impl Catalog {
    pub fn new() -> (r: Catalog)
        ensures
            r.series@.len() == 0,
            r.episodes@.len() == 0,
            r.movies@.len() == 0,
    {
        Catalog { series: Vec::new(), episodes: Vec::new(), movies: Vec::new() }
    }
}

/// The first series with this id in the catalog, from `i` on.
pub open spec fn series_from(c: Seq<SeriesEntry>, id: u32, i: int) -> Option<tmdb::SeriesV>
    decreases c.len() - i,
{
    if i >= c.len() {
        None
    } else if c[i].id == id {
        Some(c[i].series@)
    } else {
        series_from(c, id, i + 1)
    }
}

/// The first movie with this id in the catalog, from `i` on.
pub open spec fn movie_from(c: Seq<MovieEntry>, id: u32, i: int) -> Option<tmdb::MovieV>
    decreases c.len() - i,
{
    if i >= c.len() {
        None
    } else if c[i].id == id {
        Some(c[i].movie@)
    } else {
        movie_from(c, id, i + 1)
    }
}

/// The first entry for this episode in the catalog, from `i` on.
pub open spec fn episode_from(c: Seq<EpisodeEntry>, series_id: u32, season: u32, episode: u32, i: int) -> Option<
    tmdb::EpisodeV,
>
    decreases c.len() - i,
{
    if i >= c.len() {
        None
    } else if c[i].series_id == series_id && c[i].season == season && c[i].episode == episode {
        Some(c[i].details@)
    } else {
        episode_from(c, series_id, season, episode, i + 1)
    }
}

fn find_series(cat: &Catalog, id: u32) -> (r: Option<&Series>)
    ensures
        match series_from(cat.series@, id, 0) {
            Some(v) => r matches Some(s) && s@ == v,
            None => r is None,
        },
{
    let mut i: usize = 0;
    while i < cat.series.len()
        invariant
            i <= cat.series.len(),
            series_from(cat.series@, id, i as int) == series_from(cat.series@, id, 0),
        decreases cat.series.len() - i,
    {
        if cat.series[i].id == id {
            return Some(&cat.series[i].series);
        }
        i = i + 1;
    }
    None
}

fn find_movie(cat: &Catalog, id: u32) -> (r: Option<&Movie>)
    ensures
        match movie_from(cat.movies@, id, 0) {
            Some(v) => r matches Some(m) && m@ == v,
            None => r is None,
        },
{
    let mut i: usize = 0;
    while i < cat.movies.len()
        invariant
            i <= cat.movies.len(),
            movie_from(cat.movies@, id, i as int) == movie_from(cat.movies@, id, 0),
        decreases cat.movies.len() - i,
    {
        if cat.movies[i].id == id {
            return Some(&cat.movies[i].movie);
        }
        i = i + 1;
    }
    None
}

fn find_episode(cat: &Catalog, series_id: u32, season: u32, episode: u32) -> (r: Option<&Episode>)
    ensures
        match episode_from(cat.episodes@, series_id, season, episode, 0) {
            Some(v) => r matches Some(e) && e@ == v,
            None => r is None,
        },
{
    let mut i: usize = 0;
    while i < cat.episodes.len()
        invariant
            i <= cat.episodes.len(),
            episode_from(cat.episodes@, series_id, season, episode, i as int) == episode_from(
                cat.episodes@,
                series_id,
                season,
                episode,
                0,
            ),
        decreases cat.episodes.len() - i,
    {
        let e = &cat.episodes[i];
        if e.series_id == series_id && e.season == season && e.episode == episode {
            return Some(&e.details);
        }
        i = i + 1;
    }
    None
}

/// The episodes a TV row covers: `episode..=episode_end` (just `episode`
/// without an end).
pub open spec fn episode_numbers(episode: u32, episode_end: Option<u32>) -> Seq<u32> {
    let last = match episode_end {
        Some(e) => e,
        None => episode,
    };
    if last < episode {
        Seq::empty()
    } else {
        Seq::new((last - episode + 1) as nat, |k: int| (episode + k) as u32)
    }
}

/// The catalog's entries for these episodes, or the first one it lacks.
pub open spec fn episodes_for(c: Seq<EpisodeEntry>, series_id: u32, season: u32, nums: Seq<u32>) -> Result<
    Seq<tmdb::EpisodeV>,
    u32,
>
    decreases nums.len(),
{
    if nums.len() == 0 {
        Ok(Seq::empty())
    } else {
        match episodes_for(c, series_id, season, nums.drop_last()) {
            Err(n) => Err(n),
            Ok(done) => match episode_from(c, series_id, season, nums.last(), 0) {
                Some(e) => Ok(done.push(e)),
                None => Err(nums.last()),
            },
        }
    }
}

/// Texts joined with a separator between them.
pub open spec fn join(parts: Seq<Seq<char>>, sep: Seq<char>) -> Seq<char>
    decreases parts.len(),
{
    if parts.len() == 0 {
        Seq::empty()
    } else if parts.len() == 1 {
        parts[0]
    } else {
        join(parts.drop_last(), sep) + sep + parts.last()
    }
}

/// The episodes' runtimes in seconds, summed; unknown when any one is.
pub open spec fn runtime_total(eps: Seq<tmdb::EpisodeV>) -> Option<int>
    decreases eps.len(),
{
    if eps.len() == 0 {
        Some(0)
    } else {
        match (runtime_total(eps.drop_last()), eps.last().runtime) {
            (Some(t), Some(m)) => Some(t + m * 60),
            _ => None,
        }
    }
}

/// The largest partial sum that adding up the runtimes in order reaches
/// before it stops at the first unknown one.
pub open spec fn runtime_peak(eps: Seq<tmdb::EpisodeV>) -> int
    decreases eps.len(),
{
    match runtime_total(eps) {
        Some(t) => t,
        None => if eps.len() == 0 {
            0
        } else {
            runtime_peak(eps.drop_last())
        },
    }
}

/// The names of the episodes.
pub open spec fn episode_names(eps: Seq<tmdb::EpisodeV>) -> Seq<Seq<char>> {
    eps.map_values(|e: tmdb::EpisodeV| e.name)
}

/// Which identification a title check is about.
#[derive(Debug, Clone, Copy, PartialEq, Eq, Structural)]
pub enum TitleHint {
    /// Check the series, season and episode numbers.
    Episode,
    /// Check the movie id.
    Movie,
}

/// A title the manifest expects, to compare with what TMDB returned: close
/// enough to any candidate passes.
#[derive(Debug, Clone)]
pub struct TitleCheck {
    pub source: String,
    pub expected: String,
    pub returned: String,
    pub candidates: Vec<String>,
    pub hint: TitleHint,
}

pub struct TitleCheckV {
    pub source: Seq<char>,
    pub expected: Seq<char>,
    pub returned: Seq<char>,
    pub candidates: Seq<Seq<char>>,
    pub hint: TitleHint,
}

impl View for TitleCheck {
    type V = TitleCheckV;

    open spec fn view(&self) -> TitleCheckV {
        TitleCheckV {
            source: self.source@,
            expected: self.expected@,
            returned: self.returned@,
            candidates: text::views(self.candidates@),
            hint: self.hint,
        }
    }
}

/// A TMDB answer that resolution needed and the catalog lacks.
#[derive(Debug, Clone)]
pub enum ResolveError {
    MissingSeries { source: String, series_id: u32 },
    MissingEpisode { source: String, series_id: u32, season: u32, episode: u32 },
    MissingMovie { source: String, movie_id: u32 },
}

pub enum ResolveErrorV {
    MissingSeries { source: Seq<char>, series_id: u32 },
    MissingEpisode { source: Seq<char>, series_id: u32, season: u32, episode: u32 },
    MissingMovie { source: Seq<char>, movie_id: u32 },
}

impl View for ResolveError {
    type V = ResolveErrorV;

    open spec fn view(&self) -> ResolveErrorV {
        match self {
            ResolveError::MissingSeries { source, series_id } => ResolveErrorV::MissingSeries {
                source: source@,
                series_id: *series_id,
            },
            ResolveError::MissingEpisode { source, series_id, season, episode } =>
                ResolveErrorV::MissingEpisode {
                source: source@,
                series_id: *series_id,
                season: *season,
                episode: *episode,
            },
            ResolveError::MissingMovie { source, movie_id } => ResolveErrorV::MissingMovie {
                source: source@,
                movie_id: *movie_id,
            },
        }
    }
}

/// What resolving a row gives: its plan, and the title check it asks for.
pub struct ResolvedV {
    pub plan: PlanV,
    pub check: Option<TitleCheckV>,
}

/// The year-suffixed folder name of a series or movie.
pub open spec fn folder_name(name: Seq<char>, date: Option<Seq<char>>) -> Seq<char> {
    naming::with_year_spec(naming::sanitized(name), tmdb::year_of_spec(date))
}

/// How a manifest row resolves against the catalog.
pub open spec fn resolve_row(row: RowV, cat: Catalog, roots: Roots) -> Result<ResolvedV, ResolveErrorV> {
    match row {
        RowV::Tv { source, series_id, season, episode, episode_end, expected_title } => match series_from(
            cat.series@,
            series_id,
            0,
        ) {
            None => Err(ResolveErrorV::MissingSeries { source, series_id }),
            Some(series) => match episodes_for(
                cat.episodes@,
                series_id,
                season,
                episode_numbers(episode, episode_end),
            ) {
                Err(n) => Err(ResolveErrorV::MissingEpisode { source, series_id, season, episode: n }),
                Ok(eps) => {
                    let names = episode_names(eps);
                    let title = join(names, " & "@);
                    Ok(
                        ResolvedV {
                            plan: PlanV {
                                old: source,
                                new: naming::under_spec(
                                    naming::opt_string(roots.tv),
                                    naming::tv_path_spec(
                                        series.name,
                                        tmdb::year_of_spec(series.first_air_date),
                                        season as nat,
                                        episode as nat,
                                        episode_end,
                                        title,
                                        naming::extension_of_spec(source),
                                    ),
                                ),
                                expected_duration_secs: match runtime_total(eps) {
                                    Some(t) => Some(t as u64),
                                    None => None,
                                },
                            },
                            check: match expected_title {
                                Some(expected) => Some(
                                    TitleCheckV {
                                        source,
                                        expected,
                                        returned: title,
                                        candidates: names.push(title),
                                        hint: TitleHint::Episode,
                                    },
                                ),
                                None => None,
                            },
                        },
                    )
                },
            },
        },
        RowV::Movie { source, movie_id, expected_title } => match movie_from(cat.movies@, movie_id, 0) {
            None => Err(ResolveErrorV::MissingMovie { source, movie_id }),
            Some(movie) => Ok(
                ResolvedV {
                    plan: PlanV {
                        old: source,
                        new: naming::under_spec(
                            naming::opt_string(roots.movie),
                            naming::movie_path_spec(
                                movie.title,
                                tmdb::year_of_spec(movie.release_date),
                                naming::extension_of_spec(source),
                            ),
                        ),
                        expected_duration_secs: match movie.runtime {
                            Some(m) => Some((m * 60) as u64),
                            None => None,
                        },
                    },
                    check: match expected_title {
                        Some(expected) => Some(
                            TitleCheckV {
                                source,
                                expected,
                                returned: movie.title,
                                candidates: seq![movie.title],
                                hint: TitleHint::Movie,
                            },
                        ),
                        None => None,
                    },
                },
            ),
        },
        RowV::MovieExtra { source, movie_id, extra_type, name, expected_duration } => match movie_from(
            cat.movies@,
            movie_id,
            0,
        ) {
            None => Err(ResolveErrorV::MissingMovie { source, movie_id }),
            Some(movie) => Ok(
                ResolvedV {
                    plan: PlanV {
                        old: source,
                        new: naming::under_spec(
                            naming::opt_string(roots.movie),
                            naming::extra_path_spec(
                                folder_name(movie.title, movie.release_date),
                                None,
                                extra_type,
                                name,
                                naming::extension_of_spec(source),
                            ),
                        ),
                        expected_duration_secs: expected_duration,
                    },
                    check: None,
                },
            ),
        },
        RowV::TvExtra { source, series_id, season, extra_type, name, expected_duration } => match series_from(
            cat.series@,
            series_id,
            0,
        ) {
            None => Err(ResolveErrorV::MissingSeries { source, series_id }),
            Some(series) => Ok(
                ResolvedV {
                    plan: PlanV {
                        old: source,
                        new: naming::under_spec(
                            naming::opt_string(roots.tv),
                            naming::extra_path_spec(
                                folder_name(series.name, series.first_air_date),
                                season,
                                extra_type,
                                name,
                                naming::extension_of_spec(source),
                            ),
                        ),
                        expected_duration_secs: expected_duration,
                    },
                    check: None,
                },
            ),
        },
        RowV::Manual { source, new_name, expected_duration } => Ok(
            ResolvedV {
                plan: PlanV { old: source, new: new_name, expected_duration_secs: expected_duration },
                check: None,
            },
        ),
    }
}

/// The runtime arithmetic of a row stays within `u64`: a movie's runtime in
/// seconds, and every partial sum of an episode run's runtimes.
pub open spec fn row_fits(row: RowV, cat: Catalog) -> bool {
    match row {
        RowV::Tv { series_id, season, episode, episode_end, .. } => match episodes_for(
            cat.episodes@,
            series_id,
            season,
            episode_numbers(episode, episode_end),
        ) {
            Ok(eps) => runtime_peak(eps) <= manifest::u64_max(),
            Err(_) => true,
        },
        RowV::Movie { movie_id, .. } => match movie_from(cat.movies@, movie_id, 0) {
            Some(movie) => match movie.runtime {
                Some(m) => m * 60 <= manifest::u64_max(),
                None => true,
            },
            None => true,
        },
        _ => true,
    }
}

/// The rows resolved in order; the first that fails decides the error.
pub open spec fn resolve_rows(rows: Seq<RowV>, cat: Catalog, roots: Roots) -> Result<
    Seq<ResolvedV>,
    ResolveErrorV,
>
    decreases rows.len(),
{
    if rows.len() == 0 {
        Ok(Seq::empty())
    } else {
        match resolve_rows(rows.drop_last(), cat, roots) {
            Err(e) => Err(e),
            Ok(done) => match resolve_row(rows.last(), cat, roots) {
                Ok(r) => Ok(done.push(r)),
                Err(e) => Err(e),
            },
        }
    }
}

/// Every row that resolution reaches (up to the first that fails) keeps its
/// runtime arithmetic within `u64`.
pub open spec fn rows_fit(rows: Seq<RowV>, cat: Catalog, roots: Roots) -> bool
    decreases rows.len(),
{
    if rows.len() == 0 {
        true
    } else {
        rows_fit(rows.drop_last(), cat, roots) && (resolve_rows(rows.drop_last(), cat, roots) is Err
            || row_fits(rows.last(), cat))
    }
}

pub open spec fn rows_view(rows: Seq<ManifestRow>) -> Seq<RowV> {
    rows.map_values(|r: ManifestRow| r@)
}


pub open spec fn episodes_view(v: Seq<&Episode>) -> Seq<tmdb::EpisodeV> {
    v.map_values(|e: &Episode| e@)
}

/// The catalog's entries for the episodes of a TV row, or the first one it lacks.
fn episodes_of(cat: &Catalog, series_id: u32, season: u32, episode: u32, episode_end: Option<u32>) -> (r:
    Result<Vec<&Episode>, u32>)
    ensures
        match episodes_for(cat.episodes@, series_id, season, episode_numbers(episode, episode_end)) {
            Ok(eps) => r matches Ok(v) && episodes_view(v@) == eps,
            Err(n) => r == Err::<Vec<&Episode>, u32>(n),
        },
{
    let last = match episode_end {
        Some(e) => e,
        None => episode,
    };
    let ghost nums = episode_numbers(episode, episode_end);
    let mut out: Vec<&Episode> = Vec::new();
    if last < episode {
        assert(episodes_view(out@) =~= Seq::<tmdb::EpisodeV>::empty());
        return Ok(out);
    }
    let mut n: u32 = episode;
    assert(nums.take(0) =~= Seq::<u32>::empty());
    assert(episodes_view(out@) =~= Seq::<tmdb::EpisodeV>::empty());
    loop
        invariant
            episode <= n <= last,
            nums == episode_numbers(episode, episode_end),
            last == (match episode_end {
                Some(e) => e,
                None => episode,
            }),
            nums.len() == last - episode + 1,
            episodes_for(cat.episodes@, series_id, season, nums.take(n - episode)) == Ok::<
                Seq<tmdb::EpisodeV>,
                u32,
            >(episodes_view(out@)),
        decreases last - n,
    {
        let k = n - episode;
        assert(nums.take(k + 1).drop_last() =~= nums.take(k as int));
        assert(nums.take(k + 1).last() == n);
        match find_episode(cat, series_id, season, n) {
            Some(e) => {
                let ghost prev = episodes_view(out@);
                out.push(e);
                assert(episodes_view(out@) =~= prev.push(e@));
            },
            None => {
                proof {
                    lemma_episodes_for_prefix_error(cat.episodes@, series_id, season, nums, k + 1);
                }
                return Err(n);
            },
        }
        if n == last {
            assert(nums.take(k + 1) =~= nums);
            return Ok(out);
        }
        n = n + 1;
    }
}

proof fn lemma_episodes_for_prefix_error(c: Seq<EpisodeEntry>, series_id: u32, season: u32, nums: Seq<u32>, k: int)
    requires
        0 <= k <= nums.len(),
        episodes_for(c, series_id, season, nums.take(k)) is Err,
    ensures
        episodes_for(c, series_id, season, nums) == episodes_for(c, series_id, season, nums.take(k)),
    decreases nums.len() - k,
{
    if k < nums.len() {
        assert(nums.take(k + 1).drop_last() =~= nums.take(k));
        lemma_episodes_for_prefix_error(c, series_id, season, nums, k + 1);
    } else {
        assert(nums.take(k) =~= nums);
    }
}

/// The episode names joined with ` & `.
fn join_names(eps: &Vec<&Episode>) -> (r: String)
    ensures
        r@ == join(episode_names(episodes_view(eps@)), " & "@),
{
    let ghost names = episode_names(episodes_view(eps@));
    let mut out = String::new();
    let mut i: usize = 0;
    assert(names.take(0) =~= Seq::<Seq<char>>::empty());
    while i < eps.len()
        invariant
            i <= eps.len(),
            names == episode_names(episodes_view(eps@)),
            out@ == join(names.take(i as int), " & "@),
        decreases eps.len() - i,
    {
        assert(names.take(i + 1).drop_last() =~= names.take(i as int));
        assert(names[i as int] == eps@[i as int].name@);
        if i > 0 {
            out.append(" & ");
        } else {
            assert(join(names.take(0), " & "@) == Seq::<char>::empty());
            assert(names.take(1) =~= seq![names[0]]);
        }
        out.append(eps[i].name.as_str());
        i = i + 1;
    }
    assert(names.take(eps.len() as int) =~= names);
    out
}

proof fn lemma_runtime_peak_prefix(eps: Seq<tmdb::EpisodeV>, i: int)
    requires
        0 <= i <= eps.len(),
    ensures
        runtime_peak(eps.take(i)) <= runtime_peak(eps),
        runtime_total(eps.take(i)) matches Some(t) ==> t == runtime_peak(eps.take(i)),
    decreases eps.len() - i,
{
    if i < eps.len() {
        lemma_runtime_peak_prefix(eps, i + 1);
        let a = eps.take(i);
        let b = eps.take(i + 1);
        assert(b.drop_last() =~= a);
        lemma_runtime_nonneg(a);
    } else {
        assert(eps.take(i) =~= eps);
    }
}

proof fn lemma_runtime_nonneg(eps: Seq<tmdb::EpisodeV>)
    ensures
        runtime_total(eps) matches Some(t) ==> t >= 0,
    decreases eps.len(),
{
    if eps.len() > 0 {
        lemma_runtime_nonneg(eps.drop_last());
    }
}

/// The episodes' runtimes in seconds, summed; unknown when any one is.
fn runtime_secs(eps: &Vec<&Episode>) -> (r: Option<u64>)
    requires
        runtime_peak(episodes_view(eps@)) <= manifest::u64_max(),
    ensures
        match runtime_total(episodes_view(eps@)) {
            Some(t) => r == Some(t as u64),
            None => r is None,
        },
{
    let ghost ev = episodes_view(eps@);
    let mut total: Option<u64> = Some(0);
    let mut i: usize = 0;
    assert(ev.take(0) =~= Seq::<tmdb::EpisodeV>::empty());
    while i < eps.len()
        invariant
            i <= eps.len(),
            ev == episodes_view(eps@),
            runtime_peak(ev) <= manifest::u64_max(),
            match runtime_total(ev.take(i as int)) {
                Some(t) => total == Some(t as u64) && t == t as u64,
                None => total is None,
            },
        decreases eps.len() - i,
    {
        proof {
            lemma_runtime_peak_prefix(ev, i + 1);
            lemma_runtime_peak_prefix(ev, i as int);
            lemma_runtime_nonneg(ev.take(i + 1));
        }
        assert(ev.take(i + 1).drop_last() =~= ev.take(i as int));
        assert(ev.take(i + 1).last() == eps@[i as int]@);
        total = match (total, eps[i].runtime) {
            (Some(t), Some(m)) => Some(t + m * 60),
            _ => None,
        };
        i = i + 1;
    }
    assert(ev.take(eps.len() as int) =~= ev);
    total
}

pub open spec fn opt_check_view(c: Option<TitleCheck>) -> Option<TitleCheckV> {
    match c {
        Some(c) => Some(c@),
        None => None,
    }
}

/// Resolves one row against the catalog.
fn resolve_one(row: &ManifestRow, catalog: &Catalog, roots: &Roots) -> (r: Result<(RenamePlan, Option<TitleCheck>), ResolveError>)
    requires
        row_fits(row@, *catalog),
    ensures
        match resolve_row(row@, *catalog, *roots) {
            Ok(res) => r matches Ok((plan, check)) && plan@ == res.plan && opt_check_view(check)
                == res.check,
            Err(e) => r matches Err(err) && err@ == e,
        },
{
    match row {
        ManifestRow::Tv { source, series_id, season, episode, episode_end, expected_title } => {
            let series = match find_series(catalog, *series_id) {
                Some(s) => s,
                None => {
                    return Err(
                        ResolveError::MissingSeries { source: source.clone(), series_id: *series_id },
                    );
                },
            };
            let eps = match episodes_of(catalog, *series_id, *season, *episode, *episode_end) {
                Ok(v) => v,
                Err(n) => {
                    return Err(
                        ResolveError::MissingEpisode {
                            source: source.clone(),
                            series_id: *series_id,
                            season: *season,
                            episode: n,
                        },
                    );
                },
            };
            let title = join_names(&eps);
            let runtime = runtime_secs(&eps);
            let path = naming::tv_path(
                series.name.as_str(),
                series.first_air_year(),
                *season,
                *episode,
                *episode_end,
                title.as_str(),
                naming::extension_of(source.as_str()),
            );
            let new = naming::under(&roots.tv, path);
            let check = match expected_title {
                Some(expected) => {
                    let mut candidates: Vec<String> = Vec::new();
                    let ghost names = episode_names(episodes_view(eps@));
                    let mut i: usize = 0;
                    while i < eps.len()
                        invariant
                            i <= eps.len(),
                            names == episode_names(episodes_view(eps@)),
                            text::views(candidates@) == names.take(i as int),
                        decreases eps.len() - i,
                    {
                        let ghost prev = text::views(candidates@);
                        candidates.push(eps[i].name.clone());
                        assert(text::views(candidates@) =~= prev.push(eps@[i as int].name@));
                        assert(names.take(i + 1) =~= names.take(i as int).push(names[i as int]));
                        i = i + 1;
                    }
                    let ghost prev = text::views(candidates@);
                    candidates.push(title.clone());
                    assert(text::views(candidates@) =~= prev.push(title@));
                    assert(names.take(eps.len() as int) =~= names);
                    Some(
                        TitleCheck {
                            source: source.clone(),
                            expected: expected.clone(),
                            returned: title.clone(),
                            candidates,
                            hint: TitleHint::Episode,
                        },
                    )
                },
                None => None,
            };
            Ok(
                (
                    RenamePlan { old: source.clone(), new, expected_duration_secs: runtime },
                    check,
                ),
            )
        },
        ManifestRow::Movie { source, movie_id, expected_title } => {
            let movie = match find_movie(catalog, *movie_id) {
                Some(m) => m,
                None => {
                    return Err(
                        ResolveError::MissingMovie { source: source.clone(), movie_id: *movie_id },
                    );
                },
            };
            let path = naming::movie_path(
                movie.title.as_str(),
                movie.release_year(),
                naming::extension_of(source.as_str()),
            );
            let new = naming::under(&roots.movie, path);
            let runtime = match movie.runtime {
                Some(m) => Some(m * 60),
                None => None,
            };
            let check = match expected_title {
                Some(expected) => {
                    let mut candidates: Vec<String> = Vec::new();
                    candidates.push(movie.title.clone());
                    assert(text::views(candidates@) =~= seq![movie.title@]);
                    Some(
                        TitleCheck {
                            source: source.clone(),
                            expected: expected.clone(),
                            returned: movie.title.clone(),
                            candidates,
                            hint: TitleHint::Movie,
                        },
                    )
                },
                None => None,
            };
            Ok(
                (
                    RenamePlan { old: source.clone(), new, expected_duration_secs: runtime },
                    check,
                ),
            )
        },
        ManifestRow::MovieExtra { source, movie_id, extra_type, name, expected_duration } => {
            let movie = match find_movie(catalog, *movie_id) {
                Some(m) => m,
                None => {
                    return Err(
                        ResolveError::MissingMovie { source: source.clone(), movie_id: *movie_id },
                    );
                },
            };
            let clean = naming::sanitize(movie.title.as_str());
            let folder = naming::with_year(clean.as_str(), movie.release_year());
            let path = naming::extra_path(
                folder.as_str(),
                None,
                extra_type.as_str(),
                name.as_str(),
                naming::extension_of(source.as_str()),
            );
            let new = naming::under(&roots.movie, path);
            Ok(
                (
                    RenamePlan {
                        old: source.clone(),
                        new,
                        expected_duration_secs: *expected_duration,
                    },
                    None,
                ),
            )
        },
        ManifestRow::TvExtra { source, series_id, season, extra_type, name, expected_duration } => {
            let series = match find_series(catalog, *series_id) {
                Some(s) => s,
                None => {
                    return Err(
                        ResolveError::MissingSeries { source: source.clone(), series_id: *series_id },
                    );
                },
            };
            let clean = naming::sanitize(series.name.as_str());
            let folder = naming::with_year(clean.as_str(), series.first_air_year());
            let path = naming::extra_path(
                folder.as_str(),
                *season,
                extra_type.as_str(),
                name.as_str(),
                naming::extension_of(source.as_str()),
            );
            let new = naming::under(&roots.tv, path);
            Ok(
                (
                    RenamePlan {
                        old: source.clone(),
                        new,
                        expected_duration_secs: *expected_duration,
                    },
                    None,
                ),
            )
        },
        ManifestRow::Manual { source, new_name, expected_duration } => Ok(
            (
                RenamePlan {
                    old: source.clone(),
                    new: new_name.clone(),
                    expected_duration_secs: *expected_duration,
                },
                None,
            ),
        ),
    }
}


/// The outcome of resolution: the plans, in manifest order, and the title
/// checks the rows ask for.
#[derive(Debug, Clone)]
pub struct Resolution {
    pub plans: Vec<RenamePlan>,
    pub title_checks: Vec<TitleCheck>,
}

pub open spec fn resolved_plans(rs: Seq<ResolvedV>) -> Seq<PlanV> {
    rs.map_values(|r: ResolvedV| r.plan)
}

/// The title checks of the resolved rows, in order.
pub open spec fn resolved_checks(rs: Seq<ResolvedV>) -> Seq<TitleCheckV>
    decreases rs.len(),
{
    if rs.len() == 0 {
        Seq::empty()
    } else {
        resolved_checks(rs.drop_last()) + match rs.last().check {
            Some(c) => seq![c],
            None => Seq::empty(),
        }
    }
}

pub open spec fn checks_view(v: Seq<TitleCheck>) -> Seq<TitleCheckV> {
    v.map_values(|c: TitleCheck| c@)
}

proof fn lemma_rows_fit_prefix(rv: Seq<RowV>, cat: Catalog, roots: Roots, k: int)
    requires
        0 <= k <= rv.len(),
        rows_fit(rv, cat, roots),
    ensures
        rows_fit(rv.take(k), cat, roots),
    decreases rv.len() - k,
{
    if k < rv.len() {
        lemma_rows_fit_prefix(rv, cat, roots, k + 1);
        assert(rv.take(k + 1).drop_last() =~= rv.take(k));
    } else {
        assert(rv.take(k) =~= rv);
    }
}

proof fn lemma_resolve_rows_prefix_error(rv: Seq<RowV>, cat: Catalog, roots: Roots, k: int)
    requires
        0 <= k <= rv.len(),
        resolve_rows(rv.take(k), cat, roots) is Err,
    ensures
        resolve_rows(rv, cat, roots) == resolve_rows(rv.take(k), cat, roots),
    decreases rv.len() - k,
{
    if k < rv.len() {
        assert(rv.take(k + 1).drop_last() =~= rv.take(k));
        lemma_resolve_rows_prefix_error(rv, cat, roots, k + 1);
    } else {
        assert(rv.take(k) =~= rv);
    }
}

/// Resolves every row of the manifest against the TMDB answers in the
/// catalog, into rename plans: TV episodes and extras under the TV root,
/// movies and their extras under the movie root, manual targets as written.
pub fn resolve(rows: &[ManifestRow], catalog: &Catalog, roots: &Roots) -> (r: Result<
    Resolution,
    ResolveError,
>)
    requires
        rows_fit(rows_view(rows@), *catalog, *roots),
    ensures
        match resolve_rows(rows_view(rows@), *catalog, *roots) {
            Ok(rs) => r matches Ok(res) && plans_view(res.plans@) == resolved_plans(rs)
                && checks_view(res.title_checks@) == resolved_checks(rs),
            Err(e) => r matches Err(err) && err@ == e,
        },
{
    let ghost rv = rows_view(rows@);
    let mut plans: Vec<RenamePlan> = Vec::new();
    let mut title_checks: Vec<TitleCheck> = Vec::new();
    let ghost mut done: Seq<ResolvedV> = Seq::empty();
    let mut i: usize = 0;
    assert(rv.take(0) =~= Seq::<RowV>::empty());
    assert(plans_view(plans@) =~= resolved_plans(done));
    assert(checks_view(title_checks@) =~= resolved_checks(done));
    while i < rows.len()
        invariant
            i <= rows.len(),
            rv == rows_view(rows@),
            rows_fit(rv, *catalog, *roots),
            resolve_rows(rv.take(i as int), *catalog, *roots) == Ok::<Seq<ResolvedV>, ResolveErrorV>(done),
            plans_view(plans@) == resolved_plans(done),
            checks_view(title_checks@) == resolved_checks(done),
        decreases rows.len() - i,
    {
        proof {
            lemma_rows_fit_prefix(rv, *catalog, *roots, i + 1);
            assert(rv.take(i + 1).drop_last() =~= rv.take(i as int));
            assert(rv.take(i + 1).last() == rows@[i as int]@);
        }
        match resolve_one(&rows[i], catalog, roots) {
            Ok((plan, check)) => {
                let ghost res = ResolvedV { plan: plan@, check: opt_check_view(check) };
                let ghost prev_plans = plans_view(plans@);
                let ghost prev_checks = checks_view(title_checks@);
                let ghost pv = plan@;
                plans.push(plan);
                assert(plans_view(plans@) =~= prev_plans.push(pv));
                match check {
                    Some(c) => {
                        title_checks.push(c);
                    },
                    None => {},
                }
                proof {
                    let next = done.push(res);
                    assert(next.drop_last() =~= done);
                    assert(plans_view(plans@) =~= resolved_plans(next));
                    assert(checks_view(title_checks@) =~= resolved_checks(next));
                    done = next;
                }
            },
            Err(e) => {
                proof {
                    lemma_resolve_rows_prefix_error(rv, *catalog, *roots, i + 1);
                }
                return Err(e);
            },
        }
        i = i + 1;
    }
    assert(rv.take(rows.len() as int) =~= rv);
    Ok(Resolution { plans, title_checks })
}

/// Whether the runtimes of the episodes add up, in order and until the first
/// unknown one, within `u64`.
fn peak_fits(eps: &Vec<&Episode>) -> (b: bool)
    ensures
        b == (runtime_peak(episodes_view(eps@)) <= manifest::u64_max()),
{
    let ghost ev = episodes_view(eps@);
    let mut total: u64 = 0;
    let mut i: usize = 0;
    assert(ev.take(0) =~= Seq::<tmdb::EpisodeV>::empty());
    while i < eps.len()
        invariant
            i <= eps.len(),
            ev == episodes_view(eps@),
            runtime_total(ev.take(i as int)) == Some(total as int),
        decreases eps.len() - i,
    {
        proof {
            lemma_runtime_peak_prefix(ev, i + 1);
            lemma_runtime_peak_prefix(ev, i as int);
        }
        assert(ev.take(i + 1).drop_last() =~= ev.take(i as int));
        assert(ev.take(i + 1).last() == eps@[i as int]@);
        match eps[i].runtime {
            None => {
                proof {
                    lemma_runtime_peak_stops(ev, i as int);
                }
                return true;
            },
            Some(m) => {
                if m > (0xffff_ffff_ffff_ffff - total) / 60 {
                    proof {
                        let q = (0xffff_ffff_ffff_ffffu64 - total) / 60;
                        assert(m * 60 > 0xffff_ffff_ffff_ffffu64 - total) by (nonlinear_arith)
                            requires
                                m > q,
                                q == (0xffff_ffff_ffff_ffffu64 - total) / 60,
                        ;
                    }
                    return false;
                }
                proof {
                    let q = (0xffff_ffff_ffff_ffffu64 - total) / 60;
                    assert(m * 60 <= 0xffff_ffff_ffff_ffffu64 - total) by (nonlinear_arith)
                        requires
                            m <= q,
                            q == (0xffff_ffff_ffff_ffffu64 - total) / 60,
                    ;
                }
                total = total + m * 60;
            },
        }
        i = i + 1;
    }
    assert(ev.take(eps.len() as int) =~= ev);
    true
}

/// Once the sum stops at an unknown runtime, the peak is the sum before it.
proof fn lemma_runtime_peak_stops(ev: Seq<tmdb::EpisodeV>, i: int)
    requires
        0 <= i < ev.len(),
        runtime_total(ev.take(i)) is Some,
        ev[i].runtime is None,
    ensures
        runtime_peak(ev) == runtime_total(ev.take(i))->0,
{
    lemma_runtime_peak_after_none(ev, i, ev.len() as int);
    assert(ev.take(ev.len() as int) =~= ev);
}

proof fn lemma_runtime_peak_after_none(ev: Seq<tmdb::EpisodeV>, i: int, k: int)
    requires
        0 <= i < k <= ev.len(),
        runtime_total(ev.take(i)) is Some,
        ev[i].runtime is None,
    ensures
        runtime_peak(ev.take(k)) == runtime_total(ev.take(i))->0,
        runtime_total(ev.take(k)) is None,
    decreases k - i,
{
    let a = ev.take(k - 1);
    let b = ev.take(k);
    assert(b.drop_last() =~= a);
    if k == i + 1 {
        assert(b.last() == ev[i]);
        assert(runtime_total(b) is None);
        assert(runtime_peak(a) == runtime_total(a)->0);
        assert(runtime_peak(b) == runtime_peak(a));
    } else {
        lemma_runtime_peak_after_none(ev, i, k - 1);
        assert(runtime_total(b) is None);
        assert(runtime_peak(b) == runtime_peak(a));
    }
}

/// Whether resolving the row finds everything it needs in the catalog, and
/// whether its runtime arithmetic then stays within `u64`.
fn row_status(row: &ManifestRow, catalog: &Catalog, roots: &Roots) -> (r: (bool, bool))
    ensures
        r.0 == (resolve_row(row@, *catalog, *roots) is Ok),
        r.1 == row_fits(row@, *catalog),
{
    match row {
        ManifestRow::Tv { series_id, season, episode, episode_end, .. } => {
            let found = find_series(catalog, *series_id).is_some();
            match episodes_of(catalog, *series_id, *season, *episode, *episode_end) {
                Ok(eps) => (found, peak_fits(&eps)),
                Err(_) => (false, true),
            }
        },
        ManifestRow::Movie { movie_id, .. } => match find_movie(catalog, *movie_id) {
            Some(m) => (
                true,
                match m.runtime {
                    Some(mins) => mins <= 0xffff_ffff_ffff_ffff / 60,
                    None => true,
                },
            ),
            None => (false, true),
        },
        ManifestRow::MovieExtra { movie_id, .. } => (find_movie(catalog, *movie_id).is_some(), true),
        ManifestRow::TvExtra { series_id, .. } => (find_series(catalog, *series_id).is_some(), true),
        ManifestRow::Manual { .. } => (true, true),
    }
}

/// Whether `resolve` may be run on these rows: the runtime arithmetic of
/// every row it reaches stays within `u64`.
pub fn runtimes_fit(rows: &[ManifestRow], catalog: &Catalog, roots: &Roots) -> (b: bool)
    ensures
        b == rows_fit(rows_view(rows@), *catalog, *roots),
{
    let ghost rv = rows_view(rows@);
    let mut i: usize = 0;
    let mut ok = true;
    assert(rv.take(0) =~= Seq::<RowV>::empty());
    while i < rows.len()
        invariant
            i <= rows.len(),
            rv == rows_view(rows@),
            rows_fit(rv.take(i as int), *catalog, *roots),
            ok == (resolve_rows(rv.take(i as int), *catalog, *roots) is Ok),
        decreases rows.len() - i,
    {
        assert(rv.take(i + 1).drop_last() =~= rv.take(i as int));
        assert(rv.take(i + 1).last() == rows@[i as int]@);
        let (found, fits) = row_status(&rows[i], catalog, roots);
        if ok && !fits {
            proof {
                lemma_rows_fit_extends(rv, *catalog, *roots, i as int + 1);
            }
            return false;
        }
        ok = ok && found;
        i = i + 1;
    }
    assert(rv.take(rows.len() as int) =~= rv);
    true
}

/// Once a prefix does not fit, neither does the whole.
proof fn lemma_rows_fit_extends(rv: Seq<RowV>, cat: Catalog, roots: Roots, k: int)
    requires
        0 <= k <= rv.len(),
        !rows_fit(rv.take(k), cat, roots),
    ensures
        !rows_fit(rv, cat, roots),
    decreases rv.len() - k,
{
    if k < rv.len() {
        assert(rv.take(k + 1).drop_last() =~= rv.take(k));
        lemma_rows_fit_extends(rv, cat, roots, k + 1);
    } else {
        assert(rv.take(k) =~= rv);
    }
}


/// A TMDB lookup that resolution needs.
#[derive(Debug, Clone, Copy, PartialEq, Eq, Structural)]
pub enum Lookup {
    Series(u32),
    Episode { series_id: u32, season: u32, episode: u32 },
    Movie(u32),
}

/// A lookup, with the source file of the first row that needs it (for the
/// error message when it fails).
#[derive(Debug, Clone)]
pub struct LookupRequest {
    pub source: String,
    pub lookup: Lookup,
}

pub open spec fn requests_view(v: Seq<LookupRequest>) -> Seq<(Seq<char>, Lookup)> {
    v.map_values(|r: LookupRequest| (r.source@, r.lookup))
}

pub open spec fn row_source(r: RowV) -> Seq<char> {
    match r {
        RowV::Tv { source, .. } => source,
        RowV::Movie { source, .. } => source,
        RowV::MovieExtra { source, .. } => source,
        RowV::TvExtra { source, .. } => source,
        RowV::Manual { source, .. } => source,
    }
}

/// The series a row is about.
pub open spec fn row_series(r: RowV) -> Option<u32> {
    match r {
        RowV::Tv { series_id, .. } => Some(series_id),
        RowV::TvExtra { series_id, .. } => Some(series_id),
        _ => None,
    }
}

/// The movie a row is about.
pub open spec fn row_movie(r: RowV) -> Option<u32> {
    match r {
        RowV::Movie { movie_id, .. } => Some(movie_id),
        RowV::MovieExtra { movie_id, .. } => Some(movie_id),
        _ => None,
    }
}

pub open spec fn series_seen(earlier: Seq<RowV>, id: u32) -> bool {
    exists|j: int| 0 <= j < earlier.len() && row_series(earlier[j]) == Some(id)
}

pub open spec fn movie_seen(earlier: Seq<RowV>, id: u32) -> bool {
    exists|j: int| 0 <= j < earlier.len() && row_movie(earlier[j]) == Some(id)
}

/// The lookups a row adds after the rows before it: its series or movie
/// unless an earlier row needed it already (it is fetched once), then each
/// of its episodes.
pub open spec fn row_lookups(r: RowV, earlier: Seq<RowV>) -> Seq<Lookup> {
    (match row_series(r) {
        Some(id) => if series_seen(earlier, id) {
            Seq::empty()
        } else {
            seq![Lookup::Series(id)]
        },
        None => Seq::empty(),
    }) + (match row_movie(r) {
        Some(id) => if movie_seen(earlier, id) {
            Seq::empty()
        } else {
            seq![Lookup::Movie(id)]
        },
        None => Seq::empty(),
    }) + match r {
        RowV::Tv { series_id, season, episode, episode_end, .. } => episode_numbers(
            episode,
            episode_end,
        ).map_values(|n: u32| Lookup::Episode { series_id, season, episode: n }),
        _ => Seq::empty(),
    }
}

/// The lookups of the rows, in the order resolution first needs them.
pub open spec fn lookups_spec(rows: Seq<RowV>) -> Seq<(Seq<char>, Lookup)>
    decreases rows.len(),
{
    if rows.len() == 0 {
        Seq::empty()
    } else {
        let r = rows.last();
        lookups_spec(rows.drop_last()) + row_lookups(r, rows.drop_last()).map_values(
            |l: Lookup| (row_source(r), l),
        )
    }
}

fn series_seen_exec(rows: &[ManifestRow], i: usize, id: u32) -> (b: bool)
    requires
        i <= rows.len(),
    ensures
        b == series_seen(rows_view(rows@).take(i as int), id),
{
    let ghost earlier = rows_view(rows@).take(i as int);
    let mut j: usize = 0;
    while j < i
        invariant
            j <= i <= rows.len(),
            earlier == rows_view(rows@).take(i as int),
            forall|k: int| 0 <= k < j ==> row_series(earlier[k]) != Some(id),
        decreases i - j,
    {
        let hit = match &rows[j] {
            ManifestRow::Tv { series_id, .. } => *series_id == id,
            ManifestRow::TvExtra { series_id, .. } => *series_id == id,
            _ => false,
        };
        assert(earlier[j as int] == rows@[j as int]@);
        if hit {
            return true;
        }
        j = j + 1;
    }
    false
}

fn movie_seen_exec(rows: &[ManifestRow], i: usize, id: u32) -> (b: bool)
    requires
        i <= rows.len(),
    ensures
        b == movie_seen(rows_view(rows@).take(i as int), id),
{
    let ghost earlier = rows_view(rows@).take(i as int);
    let mut j: usize = 0;
    while j < i
        invariant
            j <= i <= rows.len(),
            earlier == rows_view(rows@).take(i as int),
            forall|k: int| 0 <= k < j ==> row_movie(earlier[k]) != Some(id),
        decreases i - j,
    {
        let hit = match &rows[j] {
            ManifestRow::Movie { movie_id, .. } => *movie_id == id,
            ManifestRow::MovieExtra { movie_id, .. } => *movie_id == id,
            _ => false,
        };
        assert(earlier[j as int] == rows@[j as int]@);
        if hit {
            return true;
        }
        j = j + 1;
    }
    false
}

/// Appends the lookups of row `i`.
fn push_row_lookups(rows: &[ManifestRow], i: usize, out: &mut Vec<LookupRequest>)
    requires
        i < rows.len(),
    ensures
        requests_view(final(out)@) == requests_view(old(out)@) + row_lookups(
            rows@[i as int]@,
            rows_view(rows@).take(i as int),
        ).map_values(|l: Lookup| (row_source(rows@[i as int]@), l)),
{
    let ghost r = rows@[i as int]@;
    let ghost earlier = rows_view(rows@).take(i as int);
    let ghost start = requests_view(out@);
    let row = &rows[i];
    let source = match row {
        ManifestRow::Tv { source, .. } => source,
        ManifestRow::Movie { source, .. } => source,
        ManifestRow::MovieExtra { source, .. } => source,
        ManifestRow::TvExtra { source, .. } => source,
        ManifestRow::Manual { source, .. } => source,
    };
    let series = match row {
        ManifestRow::Tv { series_id, .. } => Some(*series_id),
        ManifestRow::TvExtra { series_id, .. } => Some(*series_id),
        _ => None,
    };
    let movie = match row {
        ManifestRow::Movie { movie_id, .. } => Some(*movie_id),
        ManifestRow::MovieExtra { movie_id, .. } => Some(*movie_id),
        _ => None,
    };
    let ghost mut added: Seq<Lookup> = Seq::empty();
    match series {
        Some(id) => {
            if !series_seen_exec(rows, i, id) {
                out.push(LookupRequest { source: source.clone(), lookup: Lookup::Series(id) });
                proof {
                    added = added.push(Lookup::Series(id));
                }
            }
        },
        None => {},
    }
    match movie {
        Some(id) => {
            if !movie_seen_exec(rows, i, id) {
                out.push(LookupRequest { source: source.clone(), lookup: Lookup::Movie(id) });
                proof {
                    added = added.push(Lookup::Movie(id));
                }
            }
        },
        None => {},
    }
    proof {
        assert(requests_view(out@) =~= start + added.map_values(|l: Lookup| (source@, l)));
    }
    let ghost head = added;
    match row {
        ManifestRow::Tv { series_id, season, episode, episode_end, .. } => {
            let last = match episode_end {
                Some(e) => *e,
                None => *episode,
            };
            let ghost nums = episode_numbers(*episode, *episode_end);
            let ghost eps = nums.map_values(
                |n: u32| Lookup::Episode { series_id: *series_id, season: *season, episode: n },
            );
            if *episode <= last {
                let count: u64 = (last - *episode) as u64 + 1;
                let mut k: u64 = 0;
                assert(eps.take(0) =~= Seq::<Lookup>::empty());
                assert(head + eps.take(0) =~= head);
                while k < count
                    invariant
                        *episode <= last,
                        count == last - *episode + 1,
                        k <= count,
                        nums == episode_numbers(*episode, *episode_end),
                        nums.len() == count,
                        eps == nums.map_values(
                            |n: u32| Lookup::Episode { series_id: *series_id, season: *season, episode: n },
                        ),
                        requests_view(out@) == start + (head + eps.take(k as int)).map_values(
                            |l: Lookup| (source@, l),
                        ),
                    decreases count - k,
                {
                    let ghost before = requests_view(out@);
                    let n: u32 = (*episode as u64 + k) as u32;
                    out.push(
                        LookupRequest {
                            source: source.clone(),
                            lookup: Lookup::Episode { series_id: *series_id, season: *season, episode: n },
                        },
                    );
                    assert(eps[k as int] == Lookup::Episode { series_id: *series_id, season: *season, episode: n });
                    assert(head + eps.take(k + 1) =~= (head + eps.take(k as int)).push(eps[k as int]));
                    assert(requests_view(out@) =~= before.push((source@, eps[k as int])));
                    assert((head + eps.take(k + 1)).map_values(|l: Lookup| (source@, l)) =~= (head
                        + eps.take(k as int)).map_values(|l: Lookup| (source@, l)).push(
                        (source@, eps[k as int]),
                    ));
                    k = k + 1;
                }
                assert(eps.take(count as int) =~= eps);
                assert(row_lookups(r, earlier) =~= head + eps);
                assert(source@ == row_source(r));
            } else {
                assert(eps =~= Seq::<Lookup>::empty());
                assert(row_lookups(r, earlier) =~= head);
                assert(head + Seq::<Lookup>::empty() =~= head);
            }
        },
        _ => {
            assert(row_lookups(r, earlier) =~= head);
        },
    }
}

/// The TMDB lookups that resolving the rows needs, in the order it first
/// needs them: each series and movie once, every episode of every TV row.
pub fn lookups(rows: &[ManifestRow]) -> (v: Vec<LookupRequest>)
    ensures
        requests_view(v@) == lookups_spec(rows_view(rows@)),
{
    let ghost rv = rows_view(rows@);
    let mut out: Vec<LookupRequest> = Vec::new();
    let mut i: usize = 0;
    assert(rv.take(0) =~= Seq::<RowV>::empty());
    assert(requests_view(out@) =~= Seq::<(Seq<char>, Lookup)>::empty());
    while i < rows.len()
        invariant
            i <= rows.len(),
            rv == rows_view(rows@),
            requests_view(out@) == lookups_spec(rv.take(i as int)),
        decreases rows.len() - i,
    {
        assert(rv.take(i + 1).drop_last() =~= rv.take(i as int));
        assert(rv.take(i + 1).last() == rows@[i as int]@);
        push_row_lookups(rows, i, &mut out);
        i = i + 1;
    }
    assert(rv.take(rows.len() as int) =~= rv);
    out
}


proof fn lemma_row_lookups_index(r: RowV, earlier: Seq<RowV>, k: int)
    requires
        0 <= k < row_lookups(r, earlier).len(),
    ensures
        (row_lookups(r, earlier)[k] matches Lookup::Series(id) ==> row_series(r) == Some(id)
            && !series_seen(earlier, id) && k == 0),
        (row_lookups(r, earlier)[k] matches Lookup::Movie(id) ==> row_movie(r) == Some(id)
            && !movie_seen(earlier, id) && k == 0),
{
    let a = match row_series(r) {
        Some(id) => if series_seen(earlier, id) {
            Seq::<Lookup>::empty()
        } else {
            seq![Lookup::Series(id)]
        },
        None => Seq::empty(),
    };
    let b = match row_movie(r) {
        Some(id) => if movie_seen(earlier, id) {
            Seq::<Lookup>::empty()
        } else {
            seq![Lookup::Movie(id)]
        },
        None => Seq::empty(),
    };
    let c = match r {
        RowV::Tv { series_id, season, episode, episode_end, .. } => episode_numbers(
            episode,
            episode_end,
        ).map_values(|n: u32| Lookup::Episode { series_id, season, episode: n }),
        _ => Seq::empty(),
    };
    assert(row_lookups(r, earlier) == a + b + c);
    assert(a.len() == 0 || b.len() == 0);
    if k >= a.len() + b.len() {
        assert(row_lookups(r, earlier)[k] == c[k - a.len() - b.len()]);
    } else if k >= a.len() {
        assert(row_lookups(r, earlier)[k] == b[k - a.len()]);
    } else {
        assert(row_lookups(r, earlier)[k] == a[k]);
    }
}

proof fn lemma_lookups_split(rows: Seq<RowV>, k: int)
    requires
        rows.len() > 0,
        0 <= k < lookups_spec(rows).len(),
    ensures
        ({
            let l = lookups_spec(rows.drop_last());
            let n = row_lookups(rows.last(), rows.drop_last());
            &&& lookups_spec(rows).len() == l.len() + n.len()
            &&& k < l.len() ==> lookups_spec(rows)[k] == l[k]
            &&& k >= l.len() ==> lookups_spec(rows)[k] == (row_source(rows.last()), n[k - l.len()])
        }),
{
}

/// Where a series or movie lookup comes from: some row about it.
proof fn lemma_lookup_origin(rows: Seq<RowV>, k: int)
    requires
        0 <= k < lookups_spec(rows).len(),
    ensures
        lookups_spec(rows)[k].1 matches Lookup::Series(id) ==> series_seen(rows, id),
        lookups_spec(rows)[k].1 matches Lookup::Movie(id) ==> movie_seen(rows, id),
    decreases rows.len(),
{
    let e = rows.drop_last();
    let l = lookups_spec(e);
    lemma_lookups_split(rows, k);
    if k < l.len() {
        lemma_lookup_origin(e, k);
        if let Lookup::Series(id) = l[k].1 {
            let j = choose|j: int| 0 <= j < e.len() && row_series(e[j]) == Some(id);
            assert(rows[j] == e[j]);
        }
        if let Lookup::Movie(id) = l[k].1 {
            let j = choose|j: int| 0 <= j < e.len() && row_movie(e[j]) == Some(id);
            assert(rows[j] == e[j]);
        }
    } else {
        lemma_row_lookups_index(rows.last(), e, k - l.len());
        assert(rows[rows.len() - 1] == rows.last());
    }
}

/// Each series and each movie is looked up once, however many rows need it.
pub proof fn lemma_lookups_once(rows: Seq<RowV>)
    ensures
        forall|i: int, j: int|
            0 <= i < j < lookups_spec(rows).len() && (lookups_spec(rows)[i].1 is Series
                || lookups_spec(rows)[i].1 is Movie) ==> lookups_spec(rows)[i].1 != lookups_spec(
                rows,
            )[j].1,
    decreases rows.len(),
{
    if rows.len() > 0 {
        let e = rows.drop_last();
        let l = lookups_spec(e);
        let ls = lookups_spec(rows);
        lemma_lookups_once(e);
        assert forall|i: int, j: int|
            0 <= i < j < ls.len() && (ls[i].1 is Series || ls[i].1 is Movie) implies ls[i].1
            != ls[j].1 by {
            lemma_lookups_split(rows, i);
            lemma_lookups_split(rows, j);
            if j >= l.len() {
                lemma_row_lookups_index(rows.last(), e, j - l.len());
                if i >= l.len() {
                    lemma_row_lookups_index(rows.last(), e, i - l.len());
                } else {
                    lemma_lookup_origin(e, i);
                }
            }
        }
    }
}

/// The lookups of the first rows open the lookups of all of them.
proof fn lemma_lookups_prefix(rows: Seq<RowV>, m: int)
    requires
        0 <= m <= rows.len(),
    ensures
        lookups_spec(rows.take(m)).len() <= lookups_spec(rows).len(),
        lookups_spec(rows).take(lookups_spec(rows.take(m)).len() as int) == lookups_spec(rows.take(m)),
    decreases rows.len(),
{
    if m == rows.len() {
        assert(rows.take(m) =~= rows);
        assert(lookups_spec(rows).take(lookups_spec(rows).len() as int) =~= lookups_spec(rows));
    } else {
        let e = rows.drop_last();
        lemma_lookups_prefix(e, m);
        assert(e.take(m) =~= rows.take(m));
        let l = lookups_spec(e);
        let ls = lookups_spec(rows);
        let p = lookups_spec(rows.take(m));
        assert(ls =~= l + row_lookups(rows.last(), e).map_values(|x: Lookup| (row_source(rows.last()), x)));
        assert(ls.take(p.len() as int) =~= l.take(p.len() as int));
    }
}

/// Resolved rows are the rows resolved one by one, in order.
proof fn lemma_resolve_rows_each(rows: Seq<RowV>, cat: Catalog, roots: Roots)
    ensures
        resolve_rows(rows, cat, roots) matches Ok(rs) ==> rs.len() == rows.len() && forall|i: int|
            0 <= i < rows.len() ==> resolve_row(rows[i], cat, roots) == Ok::<
                ResolvedV,
                ResolveErrorV,
            >(#[trigger] rs[i]) && rs[i].plan.old == row_source(rows[i]),
    decreases rows.len(),
{
    if rows.len() > 0 {
        let e = rows.drop_last();
        lemma_resolve_rows_each(e, cat, roots);
        if let Ok(rs) = resolve_rows(rows, cat, roots) {
            let done = resolve_rows(e, cat, roots)->Ok_0;
            assert forall|i: int| 0 <= i < rows.len() implies resolve_row(rows[i], cat, roots)
                == Ok::<ResolvedV, ResolveErrorV>(#[trigger] rs[i]) && rs[i].plan.old == row_source(
                rows[i],
            ) by {
                lemma_targets_under_roots(rows[i], cat, roots);
                if i < e.len() {
                    assert(rs[i] == done[i]);
                    assert(rows[i] == e[i]);
                }
            }
        }
    }
}

/// Every lookup that resolving needs is made: the series or movie of every
/// row, and for each TV row its episodes, from the first to the last of its
/// range in increasing order, as one run attributed to the row's source.
pub proof fn lemma_lookups_complete(rows: Seq<RowV>, k: int)
    requires
        0 <= k < rows.len(),
    ensures
        row_series(rows[k]) matches Some(id) ==> exists|i: int|
            0 <= i < lookups_spec(rows).len() && lookups_spec(rows)[i].1 == Lookup::Series(id),
        row_movie(rows[k]) matches Some(id) ==> exists|i: int|
            0 <= i < lookups_spec(rows).len() && lookups_spec(rows)[i].1 == Lookup::Movie(id),
        rows[k] matches RowV::Tv { series_id, season, episode, episode_end, .. } ==> exists|off: int|
            0 <= off && off + episode_numbers(episode, episode_end).len() <= lookups_spec(rows).len()
                && #[trigger] lookups_spec(rows).subrange(
                off,
                off + episode_numbers(episode, episode_end).len(),
            ) == episode_numbers(episode, episode_end).map_values(
                |n: u32| (row_source(rows[k]), Lookup::Episode { series_id, season, episode: n }),
            ),
{
    lemma_lookups_cover(rows, k);
    if let RowV::Tv { series_id, season, episode, episode_end, .. } = rows[k] {
        let upto = rows.take(k + 1);
        let before = rows.take(k);
        lemma_lookups_prefix(rows, k + 1);
        assert(upto.drop_last() =~= before);
        assert(upto.last() == rows[k]);
        let r = rows[k];
        let nums = episode_numbers(episode, episode_end);
        let a = if series_seen(before, series_id) {
            Seq::<Lookup>::empty()
        } else {
            seq![Lookup::Series(series_id)]
        };
        let eps = nums.map_values(|x: u32| Lookup::Episode { series_id, season, episode: x });
        assert(row_lookups(r, before) =~= a + eps);
        let lb = lookups_spec(before);
        let lu = lookups_spec(upto);
        let src = row_source(r);
        assert(lu =~= lb + (a + eps).map_values(|x: Lookup| (src, x)));
        let off: int = lb.len() as int + a.len();
        let want = nums.map_values(
            |n: u32| (src, Lookup::Episode { series_id, season, episode: n }),
        );
        let ls = lookups_spec(rows);
        assert(ls.take(lu.len() as int) == lu);
        assert forall|n: int| 0 <= n < nums.len() implies ls[off + n] == want[n] by {
            assert(ls[off + n] == ls.take(lu.len() as int)[off + n]);
            assert(lu[off + n] == (src, (a + eps)[a.len() + n]));
        }
        assert(ls.subrange(off, off + nums.len() as int) =~= want);
    }
}

/// Every series and movie that a row is about is looked up.
proof fn lemma_lookups_cover(rows: Seq<RowV>, k: int)
    requires
        0 <= k < rows.len(),
    ensures
        row_series(rows[k]) matches Some(id) ==> exists|i: int|
            0 <= i < lookups_spec(rows).len() && lookups_spec(rows)[i].1 == Lookup::Series(id),
        row_movie(rows[k]) matches Some(id) ==> exists|i: int|
            0 <= i < lookups_spec(rows).len() && lookups_spec(rows)[i].1 == Lookup::Movie(id),
    decreases rows.len(),
{
    let e = rows.drop_last();
    let l = lookups_spec(e);
    let ls = lookups_spec(rows);
    let r = rows.last();
    let n = row_lookups(r, e);
    assert(ls.len() == l.len() + n.len());
    if k < rows.len() - 1 {
        assert(rows[k] == e[k]);
        lemma_lookups_cover(e, k);
        if let Some(id) = row_series(rows[k]) {
            let i = choose|i: int| 0 <= i < l.len() && l[i].1 == Lookup::Series(id);
            lemma_lookups_split(rows, i);
        }
        if let Some(id) = row_movie(rows[k]) {
            let i = choose|i: int| 0 <= i < l.len() && l[i].1 == Lookup::Movie(id);
            lemma_lookups_split(rows, i);
        }
    } else {
        assert(rows[k] == r);
        if let Some(id) = row_series(r) {
            if series_seen(e, id) {
                let j = choose|j: int| 0 <= j < e.len() && row_series(e[j]) == Some(id);
                assert(rows[j] == e[j]);
                lemma_lookups_cover(e, j);
                let i = choose|i: int| 0 <= i < l.len() && l[i].1 == Lookup::Series(id);
                lemma_lookups_split(rows, i);
            } else {
                assert(n[0] == Lookup::Series(id));
                lemma_lookups_split(rows, l.len() as int);
            }
        }
        if let Some(id) = row_movie(r) {
            if movie_seen(e, id) {
                let j = choose|j: int| 0 <= j < e.len() && row_movie(e[j]) == Some(id);
                assert(rows[j] == e[j]);
                lemma_lookups_cover(e, j);
                let i = choose|i: int| 0 <= i < l.len() && l[i].1 == Lookup::Movie(id);
                lemma_lookups_split(rows, i);
            } else {
                assert(row_series(r) is None);
                assert(n[0] == Lookup::Movie(id));
                lemma_lookups_split(rows, l.len() as int);
            }
        }
    }
}

/// The catalog holds the answer to a lookup.
pub open spec fn answers(cat: Catalog, l: Lookup) -> bool {
    match l {
        Lookup::Series(id) => series_from(cat.series@, id, 0) is Some,
        Lookup::Episode { series_id, season, episode } => episode_from(
            cat.episodes@,
            series_id,
            season,
            episode,
            0,
        ) is Some,
        Lookup::Movie(id) => movie_from(cat.movies@, id, 0) is Some,
    }
}

proof fn lemma_episodes_found(c: Seq<EpisodeEntry>, series_id: u32, season: u32, nums: Seq<u32>)
    requires
        forall|k: int| 0 <= k < nums.len() ==> episode_from(c, series_id, season, #[trigger] nums[k], 0) is Some,
    ensures
        episodes_for(c, series_id, season, nums) is Ok,
    decreases nums.len(),
{
    if nums.len() > 0 {
        let d = nums.drop_last();
        assert forall|k: int| 0 <= k < d.len() implies episode_from(c, series_id, season, #[trigger] d[k], 0) is Some by {
            assert(d[k] == nums[k]);
        }
        lemma_episodes_found(c, series_id, season, d);
        assert(episode_from(c, series_id, season, nums[nums.len() - 1], 0) is Some);
    }
}

/// Resolution succeeds once the catalog answers every lookup that `lookups`
/// asks for, and gives one plan per row, in row order, each renaming its
/// row's source.
pub proof fn lemma_answered_lookups_resolve(rows: Seq<RowV>, cat: Catalog, roots: Roots)
    requires
        forall|i: int| 0 <= i < lookups_spec(rows).len() ==> answers(cat, #[trigger] lookups_spec(rows)[i].1),
    ensures
        resolve_rows(rows, cat, roots) is Ok,
        resolve_rows(rows, cat, roots) matches Ok(rs) ==> rs.len() == rows.len() && forall|i: int|
            0 <= i < rows.len() ==> (#[trigger] rs[i]).plan.old == row_source(rows[i]),
    decreases rows.len(),
{
    lemma_resolve_rows_each(rows, cat, roots);
    if rows.len() > 0 {
        let e = rows.drop_last();
        let l = lookups_spec(e);
        let ls = lookups_spec(rows);
        let r = rows.last();
        let n = row_lookups(r, e);
        assert forall|i: int| 0 <= i < l.len() implies answers(cat, #[trigger] l[i].1) by {
            lemma_lookups_split(rows, i);
            assert(answers(cat, ls[i].1));
        }
        lemma_answered_lookups_resolve(e, cat, roots);
        let last = rows.len() - 1;
        assert(rows[last] == r);
        lemma_lookups_cover(rows, last);
        if let Some(id) = row_series(r) {
            let i = choose|i: int| 0 <= i < ls.len() && ls[i].1 == Lookup::Series(id);
            assert(answers(cat, ls[i].1));
        }
        if let Some(id) = row_movie(r) {
            let i = choose|i: int| 0 <= i < ls.len() && ls[i].1 == Lookup::Movie(id);
            assert(answers(cat, ls[i].1));
        }
        if let RowV::Tv { series_id, season, episode, episode_end, .. } = r {
            let nums = episode_numbers(episode, episode_end);
            let a = match row_series(r) {
                Some(id) => if series_seen(e, id) {
                    Seq::<Lookup>::empty()
                } else {
                    seq![Lookup::Series(id)]
                },
                None => Seq::empty(),
            };
            let eps = nums.map_values(|x: u32| Lookup::Episode { series_id, season, episode: x });
            assert(n =~= a + eps);
            assert forall|k: int| 0 <= k < nums.len() implies episode_from(
                cat.episodes@,
                series_id,
                season,
                #[trigger] nums[k],
                0,
            ) is Some by {
                let i = l.len() + a.len() + k;
                lemma_lookups_split(rows, i);
                assert(n[a.len() + k] == eps[k]);
                assert(answers(cat, ls[i].1));
            }
            lemma_episodes_found(cat.episodes@, series_id, season, nums);
        }
    }
}

/// `s` ends with `x`.
pub open spec fn ends_with(s: Seq<char>, x: Seq<char>) -> bool {
    x.len() <= s.len() && s.subrange(s.len() - x.len(), s.len() as int) == x
}

/// The extension a source's target gets: the source's own, or `mkv` when it
/// has none.
pub open spec fn kept_extension(source: Seq<char>) -> Seq<char> {
    match crate::paths::extension(source) {
        Some(e) => e,
        None => seq!['m', 'k', 'v'],
    }
}

proof fn lemma_ends_with_suffix(a: Seq<char>, b: Seq<char>)
    ensures
        ends_with(a + b, b),
{
    assert((a + b).subrange(a.len() as int, (a + b).len() as int) =~= b);
}

proof fn lemma_ends_with_prefix(p: Seq<char>, a: Seq<char>, x: Seq<char>)
    requires
        ends_with(a, x),
    ensures
        ends_with(p + a, x),
{
    let s = p + a;
    assert(s.subrange(s.len() - x.len(), s.len() as int) =~= a.subrange(
        a.len() - x.len(),
        a.len() as int,
    ));
}

/// A path under an optional root ends as the path does.
proof fn lemma_under_ends_with(root: Option<Seq<char>>, path: Seq<char>, x: Seq<char>)
    requires
        ends_with(path, x),
    ensures
        ends_with(naming::under_spec(root, path), x),
{
    if let Some(r) = root {
        assert(naming::under_spec(root, path) == (r + "/"@) + path);
        lemma_ends_with_prefix(r + "/"@, path, x);
    }
}

/// The target of every resolved episode, movie and extra keeps the
/// extension of its source: it ends in `.` and the source's extension, or
/// in `.mkv` when the source has none.
pub proof fn lemma_target_keeps_extension(row: RowV, cat: Catalog, roots: Roots)
    ensures
        resolve_row(row, cat, roots) matches Ok(res) ==> (row is Manual || ends_with(
            res.plan.new,
            seq!['.'] + kept_extension(row_source(row)),
        )),
{
    reveal_strlit(".");
    reveal_strlit("mkv");
    let src = row_source(row);
    let ext = naming::extension_of_spec(src);
    assert(ext == kept_extension(src));
    let tail = seq!['.'] + ext;
    assert("."@ + ext == tail);
    if let Ok(res) = resolve_row(row, cat, roots) {
        match row {
            RowV::Tv { series_id, season, episode, episode_end, .. } => {
                let series = series_from(cat.series@, series_id, 0)->0;
                let eps = episodes_for(
                    cat.episodes@,
                    series_id,
                    season,
                    episode_numbers(episode, episode_end),
                )->Ok_0;
                let title = join(episode_names(eps), " & "@);
                let name = naming::sanitized(series.name);
                let head = naming::with_year_spec(name, tmdb::year_of_spec(series.first_air_date))
                    + "/Season "@ + number::pad2(season as nat) + "/"@ + name + " - "@
                    + naming::episode_code(season as nat, episode as nat, episode_end) + " - "@
                    + naming::sanitized(title);
                let path = naming::tv_path_spec(
                    series.name,
                    tmdb::year_of_spec(series.first_air_date),
                    season as nat,
                    episode as nat,
                    episode_end,
                    title,
                    ext,
                );
                assert(path == head + tail);
                lemma_ends_with_suffix(head, tail);
                lemma_under_ends_with(naming::opt_string(roots.tv), path, tail);
            },
            RowV::Movie { movie_id, .. } => {
                let movie = movie_from(cat.movies@, movie_id, 0)->0;
                let name = naming::with_year_spec(
                    naming::sanitized(movie.title),
                    tmdb::year_of_spec(movie.release_date),
                );
                let path = naming::movie_path_spec(
                    movie.title,
                    tmdb::year_of_spec(movie.release_date),
                    ext,
                );
                assert(path == (name + "/"@ + name) + tail);
                lemma_ends_with_suffix(name + "/"@ + name, tail);
                lemma_under_ends_with(naming::opt_string(roots.movie), path, tail);
            },
            RowV::MovieExtra { movie_id, extra_type, name, .. } => {
                let movie = movie_from(cat.movies@, movie_id, 0)->0;
                let dir = folder_name(movie.title, movie.release_date);
                let path = naming::extra_path_spec(dir, None, extra_type, name, ext);
                let head = dir + Seq::<char>::empty() + "/"@ + extra_type + "/"@
                    + naming::sanitized(name);
                assert(path == head + tail);
                lemma_ends_with_suffix(head, tail);
                lemma_under_ends_with(naming::opt_string(roots.movie), path, tail);
            },
            RowV::TvExtra { series_id, season, extra_type, name, .. } => {
                let series = series_from(cat.series@, series_id, 0)->0;
                let dir = folder_name(series.name, series.first_air_date);
                let path = naming::extra_path_spec(dir, season, extra_type, name, ext);
                let mid = match season {
                    Some(sn) => "/Season "@ + number::pad2(sn as nat),
                    None => Seq::<char>::empty(),
                };
                let head = dir + mid + "/"@ + extra_type + "/"@ + naming::sanitized(name);
                assert(path == head + tail);
                lemma_ends_with_suffix(head, tail);
                lemma_under_ends_with(naming::opt_string(roots.tv), path, tail);
            },
            RowV::Manual { .. } => {},
        }
    }
}

/// The folder of the series or movie that a row's target is placed in.
pub open spec fn row_folder(row: RowV, cat: Catalog) -> Option<Seq<char>> {
    let series_folder = |id: u32|
        match series_from(cat.series@, id, 0) {
            Some(s) => Some(folder_name(s.name, s.first_air_date)),
            None => None,
        };
    let movie_folder = |id: u32|
        match movie_from(cat.movies@, id, 0) {
            Some(m) => Some(folder_name(m.title, m.release_date)),
            None => None,
        };
    match row {
        RowV::Tv { series_id, .. } => series_folder(series_id),
        RowV::TvExtra { series_id, .. } => series_folder(series_id),
        RowV::Movie { movie_id, .. } => movie_folder(movie_id),
        RowV::MovieExtra { movie_id, .. } => movie_folder(movie_id),
        RowV::Manual { .. } => None,
    }
}

/// Whether the library root of the row's kind is left unset.
pub open spec fn root_unset(row: RowV, roots: Roots) -> bool {
    ((row is Tv || row is TvExtra) && roots.tv is None) || ((row is Movie || row is MovieExtra)
        && roots.movie is None)
}

/// `path` begins with `folder`, and is relative when the folder has a name.
pub open spec fn relative_in(path: Seq<char>, folder: Seq<char>) -> bool {
    &&& folder.len() <= path.len()
    &&& path.take(folder.len() as int) == folder
    &&& folder.len() > 0 ==> path[0] != '/'
}

/// A folder name never begins with `/`.
proof fn lemma_folder_not_rooted(name: Seq<char>, date: Option<Seq<char>>)
    ensures
        folder_name(name, date).len() > 0 ==> folder_name(name, date)[0] != '/',
{
    reveal_strlit(" (");
    naming::lemma_sanitized(name);
    let s = naming::sanitized(name);
    if s.len() > 0 {
        assert(folder_name(name, date)[0] == s[0]);
        assert(naming::is_illegal('/'));
    }
}

/// Resolved TV episodes and extras land under the TV root and movies and
/// their extras under the movie root, when those are set; when the root is
/// left unset, the target is the relative path inside the series or movie
/// folder (a folder whose name is empty, from a title with no usable
/// characters and no year, is the one exception); manual targets are used
/// exactly as written.
pub proof fn lemma_targets_under_roots(row: RowV, cat: Catalog, roots: Roots)
    ensures
        resolve_row(row, cat, roots) matches Ok(res) ==> {
            &&& root_unset(row, roots) ==> (row_folder(row, cat) matches Some(f) && relative_in(
                res.plan.new,
                f,
            ))
            &&& ((row is Tv || row is TvExtra) && roots.tv is Some) ==> res.plan.new.take(
                roots.tv->0@.len() + 1int,
            ) == roots.tv->0@ + "/"@
            &&& ((row is Movie || row is MovieExtra) && roots.movie is Some) ==> res.plan.new.take(
                roots.movie->0@.len() + 1int,
            ) == roots.movie->0@ + "/"@
            &&& row matches RowV::Manual { new_name, .. } ==> res.plan.new == new_name
            &&& res.plan.old == row_source(row)
        },
{
    reveal_strlit("/");
    if let Ok(res) = resolve_row(row, cat, roots) {
        if (row is Tv || row is TvExtra) && roots.tv is Some {
            let root = roots.tv->0;
            assert(res.plan.new.take(root@.len() + 1int) =~= root@ + "/"@);
        }
        if (row is Movie || row is MovieExtra) && roots.movie is Some {
            let root = roots.movie->0;
            assert(res.plan.new.take(root@.len() + 1int) =~= root@ + "/"@);
        }
        if root_unset(row, roots) {
            let f = row_folder(row, cat)->0;
            match row {
                RowV::Tv { series_id, .. } => {
                    let s = series_from(cat.series@, series_id, 0)->0;
                    lemma_folder_not_rooted(s.name, s.first_air_date);
                },
                RowV::TvExtra { series_id, .. } => {
                    let s = series_from(cat.series@, series_id, 0)->0;
                    lemma_folder_not_rooted(s.name, s.first_air_date);
                },
                RowV::Movie { movie_id, .. } => {
                    let m = movie_from(cat.movies@, movie_id, 0)->0;
                    lemma_folder_not_rooted(m.title, m.release_date);
                },
                RowV::MovieExtra { movie_id, .. } => {
                    let m = movie_from(cat.movies@, movie_id, 0)->0;
                    lemma_folder_not_rooted(m.title, m.release_date);
                },
                RowV::Manual { .. } => {},
            }
            assert(res.plan.new.take(f.len() as int) =~= f);
            if f.len() > 0 {
                assert(res.plan.new[0] == f[0]);
            }
        }
    }
}

} // verus!
