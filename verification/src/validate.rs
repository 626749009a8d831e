//! The checks a rename plan must pass before anything is renamed: duplicate
//! sources and targets, no-op renames, missing sources, existing targets,
//! malformed target paths, and the duration cross-check.

use vstd::prelude::*;
use vstd::string::*;

use crate::number::{self, push_decimal};
use crate::paths::{self, file_name_range, last_dot_in};
use crate::rename_plan::{self, EntryV, PlanEntry};
use crate::text::{self, chars_of, split_all};

verus! {

#[derive(Debug, Clone, Copy, PartialEq, Eq, Structural)]
pub enum Severity {
    Error,
    Warning,
}

/// A finding about one line of the plan.
#[derive(Debug, Clone)]
pub struct Issue {
    pub severity: Severity,
    pub line: u64,
    pub message: String,
}

pub struct IssueV {
    pub severity: Severity,
    pub line: u64,
    pub message: Seq<char>,
}

impl View for Issue {
    type V = IssueV;

    open spec fn view(&self) -> IssueV {
        IssueV { severity: self.severity, line: self.line, message: self.message@ }
    }
}

pub open spec fn issues_view(v: Seq<Issue>) -> Seq<IssueV> {
    v.map_values(|i: Issue| i@)
}

/// `ERROR line N: message` or `WARNING line N: message`.
pub open spec fn issue_text(i: IssueV) -> Seq<char> {
    (match i.severity {
        Severity::Error => "ERROR"@,
        Severity::Warning => "WARNING"@,
    }) + " line "@ + number::decimal(i.line as nat) + ": "@ + i.message
}

impl Issue {
    /// The issue as the command line prints it.
    pub fn render(&self) -> (r: String)
        ensures
            r@ == issue_text(self@),
    {
        let mut out = String::from_str(
            match self.severity {
                Severity::Error => "ERROR",
                Severity::Warning => "WARNING",
            },
        );
        out.append(" line ");
        push_decimal(&mut out, self.line);
        out.append(": ");
        out.append(self.message.as_str());
        out
    }
}

/// Characters illegal on some filesystems, which a target is warned about.
pub open spec fn is_risky(c: char) -> bool {
    c == '<' || c == '>' || c == ':' || c == '"' || c == '\\' || c == '|' || c == '?' || c == '*'
}

/// `e` lowercases (as `str::to_lowercase` does) to `t`, a text of ASCII
/// lowercase letters and digits: each character is that of `t`, its ASCII
/// capital, or (for `k`) the Kelvin sign, the one other character that
/// lowercases to an ASCII letter.
pub open spec fn lowercases_to(e: Seq<char>, t: Seq<char>) -> bool {
    e.len() == t.len() && forall|k: int| 0 <= k < e.len() ==> folds_to(#[trigger] e[k], t[k])
}

pub open spec fn folds_to(c: char, a: char) -> bool {
    ||| c == a
    ||| (97 <= (a as u32) <= 122 && (c as u32) == (a as u32) - 32)
    ||| (a == 'k' && (c as u32) == 0x212a)
}

/// The extensions a video target is expected to have, in any case.
pub open spec fn expected_extension(e: Seq<char>) -> bool {
    lowercases_to(e, seq!['m', 'k', 'v']) || lowercases_to(e, seq!['m', 'p', '4'])
}

/// What one component of the target path is reported for, if anything.
pub open spec fn component_issue(new: Seq<char>, c: Seq<char>) -> Seq<(Severity, Seq<char>)> {
    if text::trim(c).len() == 0 {
        seq![(Severity::Error, "target '"@ + new + "' contains an empty path component"@)]
    } else if c == seq!['.'] || c == seq!['.', '.'] {
        seq![(Severity::Error, "target '"@ + new + "' contains a '"@ + c + "' path component"@)]
    } else if exists|k: int| 0 <= k < c.len() && is_risky(c[k]) {
        seq![
            (Severity::Warning, "target component '"@ + c
                + "' contains characters that are illegal on some filesystems"@),
        ]
    } else {
        Seq::empty()
    }
}

/// The issues of the components, in order.
pub open spec fn components_issues(new: Seq<char>, cs: Seq<Seq<char>>) -> Seq<(Severity, Seq<char>)>
    decreases cs.len(),
{
    if cs.len() == 0 {
        Seq::empty()
    } else {
        components_issues(new, cs.drop_last()) + component_issue(new, cs.last())
    }
}

/// The target without one leading `/`: absolute targets are legitimate.
pub open spec fn relative_part(new: Seq<char>) -> Seq<char> {
    if new.len() > 0 && new[0] == '/' {
        new.drop_first()
    } else {
        new
    }
}

/// The issues of a target path: those of each `/`-separated component, then
/// a warning when its extension is not `mkv` or `mp4`.
pub open spec fn target_issues_spec(new: Seq<char>) -> Seq<(Severity, Seq<char>)> {
    components_issues(new, text::split(relative_part(new), '/')) + match paths::extension(new) {
        Some(e) => if expected_extension(e) {
            Seq::empty()
        } else {
            seq![
                (Severity::Warning, "target '"@ + new
                    + "' has an unexpected extension (expected one of mkv, mp4)"@),
            ]
        },
        None => seq![
            (Severity::Warning, "target '"@ + new
                + "' has an unexpected extension (expected one of mkv, mp4)"@),
        ],
    }
}

pub open spec fn pairs_view(v: Seq<(Severity, String)>) -> Seq<(Severity, Seq<char>)> {
    v.map_values(|p: (Severity, String)| (p.0, p.1@))
}

fn is_risky_char(c: char) -> (b: bool)
    ensures
        b == is_risky(c),
{
    c == '<' || c == '>' || c == ':' || c == '"' || c == '\\' || c == '|' || c == '?' || c == '*'
}

fn folds_to_exec(c: char, a: char) -> (b: bool)
    ensures
        b == folds_to(c, a),
{
    let u = c as u32;
    let v = a as u32;
    c == a || (97 <= v && v <= 122 && u == v - 32) || (a == 'k' && u == 0x212a)
}

/// Whether `cs[a..b]` is `mkv` or `mp4`, ignoring case.
fn is_expected_extension(cs: &Vec<char>, a: usize, b: usize) -> (r: bool)
    requires
        a <= b <= cs.len(),
    ensures
        r == expected_extension(cs@.subrange(a as int, b as int)),
{
    let ghost e = cs@.subrange(a as int, b as int);
    if b - a != 3 {
        return false;
    }
    let mkv = folds_to_exec(cs[a], 'm') && folds_to_exec(cs[a + 1], 'k') && folds_to_exec(cs[a + 2], 'v');
    let mp4 = folds_to_exec(cs[a], 'm') && folds_to_exec(cs[a + 1], 'p') && folds_to_exec(cs[a + 2], '4');
    proof {
        assert(e[0] == cs@[a as int] && e[1] == cs@[a + 1] && e[2] == cs@[a + 2]);
        if mkv {
            assert forall|k: int| 0 <= k < e.len() implies folds_to(#[trigger] e[k], seq!['m', 'k', 'v'][k]) by {
                if k == 0 {} else if k == 1 {} else {}
            }
        }
        if lowercases_to(e, seq!['m', 'k', 'v']) {
            assert(folds_to(e[0], 'm') && folds_to(e[1], 'k') && folds_to(e[2], 'v'));
        }
        if mp4 {
            assert forall|k: int| 0 <= k < e.len() implies folds_to(#[trigger] e[k], seq!['m', 'p', '4'][k]) by {
                if k == 0 {} else if k == 1 {} else {}
            }
        }
        if lowercases_to(e, seq!['m', 'p', '4']) {
            assert(folds_to(e[0], 'm') && folds_to(e[1], 'p') && folds_to(e[2], '4'));
        }
    }
    mkv || mp4
}

/// Whether the target has an expected extension.
fn has_expected_extension(new: &str) -> (r: bool)
    ensures
        r == (paths::extension(new@) matches Some(e) && expected_extension(e)),
{
    let cs = chars_of(new);
    match file_name_range(&cs) {
        Some((a, b)) => {
            let ghost n = cs@.subrange(a as int, b as int);
            assert(paths::file_name(new@) == Some(n));
            proof {
                paths::lemma_last_dot(n, (b - a) as int);
            }
            match last_dot_in(&cs, a, b) {
                Some(d) if d > a => {
                    assert(n.subrange(d - a + 1, b - a) =~= cs@.subrange(d + 1, b as int));
                    is_expected_extension(&cs, d + 1, b)
                },
                _ => false,
            }
        },
        None => false,
    }
}

/// Appends the issue of one component of `new`, if it has one.
fn push_component_issue(out: &mut Vec<(Severity, String)>, new: &str, c: &str)
    ensures
        pairs_view(final(out)@) == pairs_view(old(out)@) + component_issue(new@, c@),
{
    let ghost before = pairs_view(out@);
    let t = text::trim_str(c);
    let cc = chars_of(c);
    if t.unicode_len() == 0 {
        let mut m = String::from_str("target '");
        m.append(new);
        m.append("' contains an empty path component");
        out.push((Severity::Error, m));
    } else if (cc.len() == 1 && cc[0] == '.') || (cc.len() == 2 && cc[0] == '.' && cc[1] == '.') {
        proof {
            if cc.len() == 1 {
                assert(c@ =~= seq!['.']);
            } else {
                assert(c@ =~= seq!['.', '.']);
            }
        }
        let mut m = String::from_str("target '");
        m.append(new);
        m.append("' contains a '");
        m.append(c);
        m.append("' path component");
        out.push((Severity::Error, m));
    } else {
        proof {
            if c@ == seq!['.'] {
                assert(cc@.len() == 1 && cc@[0] == '.');
            }
            if c@ == seq!['.', '.'] {
                assert(cc@.len() == 2 && cc@[0] == '.' && cc@[1] == '.');
            }
        }
        let mut k: usize = 0;
        let mut risky = false;
        while k < cc.len()
            invariant
                cc@ == c@,
                k <= cc.len(),
                risky == exists|j: int| 0 <= j < k && is_risky(c@[j]),
            decreases cc.len() - k,
        {
            if is_risky_char(cc[k]) {
                risky = true;
            }
            k = k + 1;
        }
        if risky {
            let mut m = String::from_str("target component '");
            m.append(c);
            m.append("' contains characters that are illegal on some filesystems");
            out.push((Severity::Warning, m));
        } else {
            assert(pairs_view(out@) =~= before + Seq::empty());
            return ;
        }
    }
    assert(pairs_view(out@) =~= before + component_issue(new@, c@));
}

/// The issues of a target path: errors for empty, `.` and `..` components,
/// warnings for characters illegal on some filesystems and for an extension
/// other than `mkv` or `mp4`.
pub fn target_path_issues(new: &str) -> (r: Vec<(Severity, String)>)
    ensures
        pairs_view(r@) == target_issues_spec(new@),
{
    let cs = chars_of(new);
    let relative = if cs.len() > 0 && cs[0] == '/' {
        assert(new@.subrange(1, cs.len() as int) =~= new@.drop_first());
        new.substring_char(1, cs.len())
    } else {
        new
    };
    let parts = split_all(relative, '/');
    let ghost pv = text::views(parts@);
    let mut out: Vec<(Severity, String)> = Vec::new();
    let mut i: usize = 0;
    assert(pv.take(0) =~= Seq::<Seq<char>>::empty());
    assert(pairs_view(out@) =~= Seq::<(Severity, Seq<char>)>::empty());
    while i < parts.len()
        invariant
            i <= parts.len(),
            pv == text::views(parts@),
            pairs_view(out@) == components_issues(new@, pv.take(i as int)),
        decreases parts.len() - i,
    {
        assert(pv.take(i + 1).drop_last() =~= pv.take(i as int));
        assert(pv.take(i + 1).last() == parts@[i as int]@);
        push_component_issue(&mut out, new, parts[i].as_str());
        i = i + 1;
    }
    assert(pv.take(parts.len() as int) =~= pv);
    let ghost before = pairs_view(out@);
    if !has_expected_extension(new) {
        let mut m = String::from_str("target '");
        m.append(new);
        m.append("' has an unexpected extension (expected one of mkv, mp4)");
        out.push((Severity::Warning, m));
        assert(pairs_view(out@) =~= target_issues_spec(new@));
    } else {
        assert(pairs_view(out@) =~= target_issues_spec(new@));
    }
    out
}


/// The outcome of the duration cross-check of one source, as the command
/// line measured it: the figures of a mismatch come rendered in seconds.
#[derive(Debug, Clone)]
pub enum DurationCheck {
    NotChecked,
    WithinTolerance,
    Mismatch { actual: String, diff: String, allowed: String },
    Unreadable { reason: String },
}

/// What the filesystem and the duration probe say about one plan entry.
#[derive(Debug, Clone)]
pub struct Probe {
    pub source_exists: bool,
    pub target_exists: bool,
    pub duration: DurationCheck,
}

pub enum DurationCheckV {
    NotChecked,
    WithinTolerance,
    Mismatch { actual: Seq<char>, diff: Seq<char>, allowed: Seq<char> },
    Unreadable { reason: Seq<char> },
}

pub struct ProbeV {
    pub source_exists: bool,
    pub target_exists: bool,
    pub duration: DurationCheckV,
}

impl View for Probe {
    type V = ProbeV;

    open spec fn view(&self) -> ProbeV {
        ProbeV {
            source_exists: self.source_exists,
            target_exists: self.target_exists,
            duration: match &self.duration {
                DurationCheck::NotChecked => DurationCheckV::NotChecked,
                DurationCheck::WithinTolerance => DurationCheckV::WithinTolerance,
                DurationCheck::Mismatch { actual, diff, allowed } => DurationCheckV::Mismatch {
                    actual: actual@,
                    diff: diff@,
                    allowed: allowed@,
                },
                DurationCheck::Unreadable { reason } => DurationCheckV::Unreadable {
                    reason: reason@,
                },
            },
        }
    }
}

pub open spec fn probes_view(v: Seq<Probe>) -> Seq<ProbeV> {
    v.map_values(|p: Probe| p@)
}

/// The first entry before `i`, from `j` on, with this old path.
pub open spec fn first_old(es: Seq<EntryV>, i: int, old: Seq<char>, j: int) -> Option<int>
    decreases i - j,
{
    if j >= i {
        None
    } else if es[j].plan.old == old {
        Some(j)
    } else {
        first_old(es, i, old, j + 1)
    }
}

/// The first entry before `i`, from `j` on, with this new path.
pub open spec fn first_new(es: Seq<EntryV>, i: int, new: Seq<char>, j: int) -> Option<int>
    decreases i - j,
{
    if j >= i {
        None
    } else if es[j].plan.new == new {
        Some(j)
    } else {
        first_new(es, i, new, j + 1)
    }
}

pub open spec fn at_line(line: u64, ps: Seq<(Severity, Seq<char>)>) -> Seq<IssueV> {
    ps.map_values(|p: (Severity, Seq<char>)| IssueV { severity: p.0, line, message: p.1 })
}

pub open spec fn error_at(line: u64, m: Seq<char>) -> Seq<IssueV> {
    seq![IssueV { severity: Severity::Error, line, message: m }]
}

/// An error when the source of entry `i` appeared on an earlier entry.
pub open spec fn duplicate_source_issue(es: Seq<EntryV>, i: int) -> Seq<IssueV> {
    match first_old(es, i, es[i].plan.old, 0) {
        Some(j) => error_at(
            es[i].line,
            "source '"@ + es[i].plan.old + "' already appears on line "@ + number::decimal(
                es[j].line as nat,
            ),
        ),
        None => Seq::empty(),
    }
}

/// An error when the target of entry `i` appeared on an earlier entry.
pub open spec fn collision_issue(es: Seq<EntryV>, i: int) -> Seq<IssueV> {
    match first_new(es, i, es[i].plan.new, 0) {
        Some(j) => error_at(
            es[i].line,
            "target '"@ + es[i].plan.new + "' collides with line "@ + number::decimal(
                es[j].line as nat,
            ),
        ),
        None => Seq::empty(),
    }
}

pub open spec fn noop_issue(e: EntryV) -> Seq<IssueV> {
    if e.plan.old == e.plan.new {
        error_at(e.line, "source and target are identical ('"@ + e.plan.old + "')"@)
    } else {
        Seq::empty()
    }
}

pub open spec fn missing_source_issue(e: EntryV, probe: ProbeV) -> Seq<IssueV> {
    if !probe.source_exists {
        error_at(e.line, "source file '"@ + e.plan.old + "' does not exist"@)
    } else {
        Seq::empty()
    }
}

pub open spec fn existing_target_issue(e: EntryV, probe: ProbeV) -> Seq<IssueV> {
    if e.plan.old != e.plan.new && probe.target_exists {
        error_at(e.line, "target '"@ + e.plan.new + "' already exists"@)
    } else {
        Seq::empty()
    }
}

/// The duration cross-check, for a source that exists and has an expected
/// duration.
pub open spec fn duration_issue(e: EntryV, probe: ProbeV) -> Seq<IssueV> {
    match (e.plan.expected_duration_secs, probe.source_exists) {
        (Some(expected), true) => match probe.duration {
            DurationCheckV::Mismatch { actual, diff, allowed } => error_at(
                e.line,
                "'"@ + e.plan.old + "' duration "@ + actual + "s differs from expected "@
                    + number::decimal(expected as nat) + "s by "@ + diff + "s (allowed "@ + allowed
                    + "s) \u{2014} possible mismatch with '"@ + e.plan.new + "'"@,
            ),
            DurationCheckV::Unreadable { reason } => seq![
                IssueV {
                    severity: Severity::Warning,
                    line: e.line,
                    message: "could not read duration of '"@ + e.plan.old + "': "@ + reason,
                },
            ],
            _ => Seq::empty(),
        },
        _ => Seq::empty(),
    }
}

/// The issues of entry `i`, in the order they are reported: a duplicate
/// source, a colliding target, a no-op, the target path's own issues, a
/// missing source, an existing target, then the duration cross-check.
pub open spec fn entry_issues(es: Seq<EntryV>, i: int, probe: ProbeV) -> Seq<IssueV> {
    duplicate_source_issue(es, i) + collision_issue(es, i) + noop_issue(es[i]) + at_line(
        es[i].line,
        target_issues_spec(es[i].plan.new),
    ) + missing_source_issue(es[i], probe) + existing_target_issue(es[i], probe) + duration_issue(
        es[i],
        probe,
    )
}

/// The issues of the first `k` entries.
pub open spec fn issues_upto(es: Seq<EntryV>, ps: Seq<ProbeV>, k: int) -> Seq<IssueV>
    decreases k,
{
    if k <= 0 {
        Seq::empty()
    } else {
        issues_upto(es, ps, k - 1) + entry_issues(es, k - 1, ps[k - 1])
    }
}

/// All issues of the plan.
pub open spec fn validate_spec(es: Seq<EntryV>, ps: Seq<ProbeV>) -> Seq<IssueV> {
    issues_upto(es, ps, es.len() as int)
}

fn find_first_old(entries: &[PlanEntry], i: usize) -> (r: Option<usize>)
    requires
        i < entries.len(),
    ensures
        r matches Some(j) ==> j < i && first_old(
            rename_plan::entries_view(entries@),
            i as int,
            entries@[i as int].plan.old@,
            0,
        ) == Some(j as int),
        r is None ==> first_old(
            rename_plan::entries_view(entries@),
            i as int,
            entries@[i as int].plan.old@,
            0,
        ) is None,
{
    let ghost es = rename_plan::entries_view(entries@);
    let mut j: usize = 0;
    while j < i
        invariant
            j <= i < entries.len(),
            es == rename_plan::entries_view(entries@),
            first_old(es, i as int, entries@[i as int].plan.old@, j as int) == first_old(
                es,
                i as int,
                entries@[i as int].plan.old@,
                0,
            ),
        decreases i - j,
    {
        if entries[j].plan.old == entries[i].plan.old {
            return Some(j);
        }
        j = j + 1;
    }
    None
}

fn find_first_new(entries: &[PlanEntry], i: usize) -> (r: Option<usize>)
    requires
        i < entries.len(),
    ensures
        r matches Some(j) ==> j < i && first_new(
            rename_plan::entries_view(entries@),
            i as int,
            entries@[i as int].plan.new@,
            0,
        ) == Some(j as int),
        r is None ==> first_new(
            rename_plan::entries_view(entries@),
            i as int,
            entries@[i as int].plan.new@,
            0,
        ) is None,
{
    let ghost es = rename_plan::entries_view(entries@);
    let mut j: usize = 0;
    while j < i
        invariant
            j <= i < entries.len(),
            es == rename_plan::entries_view(entries@),
            first_new(es, i as int, entries@[i as int].plan.new@, j as int) == first_new(
                es,
                i as int,
                entries@[i as int].plan.new@,
                0,
            ),
        decreases i - j,
    {
        if entries[j].plan.new == entries[i].plan.new {
            return Some(j);
        }
        j = j + 1;
    }
    None
}

fn push_error(out: &mut Vec<Issue>, line: u64, message: String)
    ensures
        issues_view(final(out)@) == issues_view(old(out)@) + seq![
            IssueV { severity: Severity::Error, line, message: message@ },
        ],
{
    out.push(Issue { severity: Severity::Error, line, message });
    assert(issues_view(out@) =~= issues_view(old(out)@) + seq![
        IssueV { severity: Severity::Error, line, message: message@ },
    ]);
}

fn push_duplicate_issues(out: &mut Vec<Issue>, entries: &[PlanEntry], i: usize)
    requires
        i < entries.len(),
    ensures
        issues_view(final(out)@) == issues_view(old(out)@) + duplicate_source_issue(
            rename_plan::entries_view(entries@),
            i as int,
        ) + collision_issue(rename_plan::entries_view(entries@), i as int),
{
    let ghost es = rename_plan::entries_view(entries@);
    let ghost start = issues_view(out@);
    let entry = &entries[i];
    let plan = &entry.plan;
    let line = entry.line;
    assert(es[i as int] == entry@);
    match find_first_old(entries, i) {
        Some(j) => {
            let mut m = String::from_str("source '");
            m.append(plan.old.as_str());
            m.append("' already appears on line ");
            push_decimal(&mut m, entries[j].line);
            assert(es[j as int].line == entries@[j as int].line);
            push_error(out, line, m);
        },
        None => {},
    }
    let ghost a1 = duplicate_source_issue(es, i as int);
    assert(issues_view(out@) =~= start + a1);
    match find_first_new(entries, i) {
        Some(j) => {
            let mut m = String::from_str("target '");
            m.append(plan.new.as_str());
            m.append("' collides with line ");
            push_decimal(&mut m, entries[j].line);
            assert(es[j as int].line == entries@[j as int].line);
            push_error(out, line, m);
        },
        None => {},
    }
    assert(issues_view(out@) =~= start + a1 + collision_issue(es, i as int));
}

fn push_path_issues(out: &mut Vec<Issue>, line: u64, new: &str)
    ensures
        issues_view(final(out)@) == issues_view(old(out)@) + at_line(line, target_issues_spec(new@)),
{
    let path_issues = target_path_issues(new);
    let ghost before_paths = issues_view(out@);
    let mut k: usize = 0;
    assert(pairs_view(path_issues@).take(0) =~= Seq::<(Severity, Seq<char>)>::empty());
    assert(at_line(line, Seq::empty()) =~= Seq::<IssueV>::empty());
    while k < path_issues.len()
        invariant
            k <= path_issues.len(),
            issues_view(out@) == before_paths + at_line(line, pairs_view(path_issues@).take(k as int)),
        decreases path_issues.len() - k,
    {
        let severity = path_issues[k].0;
        let message = path_issues[k].1.clone();
        let ghost prev = issues_view(out@);
        out.push(Issue { severity, line, message });
        proof {
            let pv = pairs_view(path_issues@);
            assert(pv.take(k + 1) =~= pv.take(k as int).push(pv[k as int]));
            assert(issues_view(out@) =~= prev.push(IssueV { severity: pv[k as int].0, line, message: pv[k as int].1 }));
            assert(at_line(line, pv.take(k + 1)) =~= at_line(line, pv.take(k as int)).push(
                IssueV { severity: pv[k as int].0, line, message: pv[k as int].1 },
            ));
        }
        k = k + 1;
    }
    assert(pairs_view(path_issues@).take(path_issues.len() as int) =~= pairs_view(path_issues@));
}

fn push_probe_issues(out: &mut Vec<Issue>, entry: &PlanEntry, probe: &Probe)
    ensures
        issues_view(final(out)@) == issues_view(old(out)@) + missing_source_issue(entry@, probe@)
            + existing_target_issue(entry@, probe@) + duration_issue(entry@, probe@),
{
    let ghost start = issues_view(out@);
    let plan = &entry.plan;
    let line = entry.line;
    if !probe.source_exists {
        let mut m = String::from_str("source file '");
        m.append(plan.old.as_str());
        m.append("' does not exist");
        push_error(out, line, m);
    }
    let ghost a5 = missing_source_issue(entry@, probe@);
    assert(issues_view(out@) =~= start + a5);
    let same = plan.old == plan.new;
    if !same && probe.target_exists {
        let mut m = String::from_str("target '");
        m.append(plan.new.as_str());
        m.append("' already exists");
        push_error(out, line, m);
    }
    let ghost a6 = a5 + existing_target_issue(entry@, probe@);
    assert(issues_view(out@) =~= start + a6);
    match (plan.expected_duration_secs, probe.source_exists) {
        (Some(expected), true) => match &probe.duration {
            DurationCheck::Mismatch { actual, diff, allowed } => {
                let mut m = String::from_str("'");
                m.append(plan.old.as_str());
                m.append("' duration ");
                m.append(actual.as_str());
                m.append("s differs from expected ");
                push_decimal(&mut m, expected);
                m.append("s by ");
                m.append(diff.as_str());
                m.append("s (allowed ");
                m.append(allowed.as_str());
                m.append("s) \u{2014} possible mismatch with '");
                m.append(plan.new.as_str());
                m.append("'");
                push_error(out, line, m);
            },
            DurationCheck::Unreadable { reason } => {
                let mut m = String::from_str("could not read duration of '");
                m.append(plan.old.as_str());
                m.append("': ");
                m.append(reason.as_str());
                let ghost prev = issues_view(out@);
                out.push(Issue { severity: Severity::Warning, line, message: m });
                assert(issues_view(out@) =~= prev.push(IssueV { severity: Severity::Warning, line, message: m@ }));
            },
            _ => {},
        },
        _ => {},
    }
    assert(issues_view(out@) =~= start + a6 + duration_issue(entry@, probe@));
}

/// Appends the issues of entry `i`.
fn push_entry_issues(out: &mut Vec<Issue>, entries: &[PlanEntry], i: usize, probe: &Probe)
    requires
        i < entries.len(),
    ensures
        issues_view(final(out)@) == issues_view(old(out)@) + entry_issues(
            rename_plan::entries_view(entries@),
            i as int,
            probe@,
        ),
{
    let ghost es = rename_plan::entries_view(entries@);
    let ghost start = issues_view(out@);
    let entry = &entries[i];
    assert(es[i as int] == entry@);
    push_duplicate_issues(out, entries, i);
    let ghost a2 = duplicate_source_issue(es, i as int) + collision_issue(es, i as int);
    if entry.plan.old == entry.plan.new {
        let mut m = String::from_str("source and target are identical ('");
        m.append(entry.plan.old.as_str());
        m.append("')");
        push_error(out, entry.line, m);
    }
    let ghost a3 = a2 + noop_issue(entry@);
    assert(issues_view(out@) =~= start + a3);
    push_path_issues(out, entry.line, entry.plan.new.as_str());
    let ghost a4 = a3 + at_line(entry.line, target_issues_spec(entry.plan.new@));
    assert(issues_view(out@) =~= start + a4);
    push_probe_issues(out, entry, probe);
    assert(issues_view(out@) =~= start + entry_issues(es, i as int, probe@));
}

/// Runs every check against the plan, given what the filesystem and the
/// duration probe say about each entry. Nothing is modified.
pub fn validate(entries: &[PlanEntry], probes: &[Probe]) -> (r: Vec<Issue>)
    requires
        probes.len() == entries.len(),
    ensures
        issues_view(r@) == validate_spec(rename_plan::entries_view(entries@), probes_view(probes@)),
{
    let ghost es = rename_plan::entries_view(entries@);
    let ghost ps = probes_view(probes@);
    let mut out: Vec<Issue> = Vec::new();
    let mut i: usize = 0;
    assert(issues_view(out@) =~= Seq::<IssueV>::empty());
    while i < entries.len()
        invariant
            i <= entries.len(),
            probes.len() == entries.len(),
            es == rename_plan::entries_view(entries@),
            ps == probes_view(probes@),
            issues_view(out@) == issues_upto(es, ps, i as int),
        decreases entries.len() - i,
    {
        push_entry_issues(&mut out, entries, i, &probes[i]);
        assert(ps[i as int] == probes@[i as int]@);
        i = i + 1;
    }
    out
}


/// Where the issues of entry `j` sit among those of the first `k` entries.
proof fn lemma_entry_within(es: Seq<EntryV>, ps: Seq<ProbeV>, j: int, k: int) -> (off: int)
    requires
        0 <= j < k,
    ensures
        0 <= off,
        off + entry_issues(es, j, ps[j]).len() <= issues_upto(es, ps, k).len(),
        forall|m: int|
            0 <= m < entry_issues(es, j, ps[j]).len() ==> issues_upto(es, ps, k)[off + m]
                == #[trigger] entry_issues(es, j, ps[j])[m],
    decreases k - j,
{
    if k == j + 1 {
        let off = issues_upto(es, ps, j).len() as int;
        assert(issues_upto(es, ps, k) == issues_upto(es, ps, j) + entry_issues(es, j, ps[j]));
        off
    } else {
        let off = lemma_entry_within(es, ps, j, k - 1);
        assert(issues_upto(es, ps, k) == issues_upto(es, ps, k - 1) + entry_issues(es, k - 1, ps[k - 1]));
        assert forall|m: int| 0 <= m < entry_issues(es, j, ps[j]).len() implies issues_upto(
            es,
            ps,
            k,
        )[off + m] == #[trigger] entry_issues(es, j, ps[j])[m] by {
            assert(issues_upto(es, ps, k - 1)[off + m] == entry_issues(es, j, ps[j])[m]);
        }
        off
    }
}

proof fn lemma_first_old_found(es: Seq<EntryV>, j: int, x: Seq<char>, lo: int, i: int)
    requires
        0 <= lo <= i < j <= es.len(),
        es[i].plan.old == x,
    ensures
        first_old(es, j, x, lo) is Some,
    decreases i - lo,
{
    if lo < i && es[lo].plan.old != x {
        lemma_first_old_found(es, j, x, lo + 1, i);
    }
}

proof fn lemma_first_new_found(es: Seq<EntryV>, j: int, x: Seq<char>, lo: int, i: int)
    requires
        0 <= lo <= i < j <= es.len(),
        es[i].plan.new == x,
    ensures
        first_new(es, j, x, lo) is Some,
    decreases i - lo,
{
    if lo < i && es[lo].plan.new != x {
        lemma_first_new_found(es, j, x, lo + 1, i);
    }
}

/// An entry whose issues hold an error puts an error into the plan's issues.
proof fn lemma_error_reported(es: Seq<EntryV>, ps: Seq<ProbeV>, j: int, m: int)
    requires
        ps.len() == es.len(),
        0 <= j < es.len(),
        0 <= m < entry_issues(es, j, ps[j]).len(),
        entry_issues(es, j, ps[j])[m].severity == Severity::Error,
    ensures
        exists|t: int|
            0 <= t < validate_spec(es, ps).len() && validate_spec(es, ps)[t].severity
                == Severity::Error,
{
    let off = lemma_entry_within(es, ps, j, es.len() as int);
    assert(validate_spec(es, ps)[off + m] == entry_issues(es, j, ps[j])[m]);
}

/// Entry `j` shares its source and target with no earlier entry, renames
/// an existing file and overwrites nothing.
pub open spec fn entry_safe(es: Seq<EntryV>, ps: Seq<ProbeV>, j: int) -> bool {
    &&& forall|i: int| 0 <= i < j ==> es[i].plan.old != es[j].plan.old && es[i].plan.new != es[j].plan.new
    &&& es[j].plan.old != es[j].plan.new && ps[j].source_exists && !ps[j].target_exists
}

/// A plan that validation reports no error for is safe to apply: no two
/// entries share a source or a target, no entry renames a file onto itself,
/// every source exists and no target does.
pub proof fn lemma_no_errors_means_safe(es: Seq<EntryV>, ps: Seq<ProbeV>)
    requires
        ps.len() == es.len(),
        forall|t: int|
            0 <= t < validate_spec(es, ps).len() ==> #[trigger] validate_spec(es, ps)[t].severity
                == Severity::Warning,
    ensures
        forall|i: int, j: int|
            0 <= i < j < es.len() ==> es[i].plan.old != es[j].plan.old && es[i].plan.new
                != es[j].plan.new,
        forall|i: int|
            0 <= i < es.len() ==> es[i].plan.old != es[i].plan.new && ps[i].source_exists
                && !ps[i].target_exists,
{
    assert forall|j: int| 0 <= j < es.len() implies #[trigger] entry_safe(es, ps, j) by {
        let e = es[j];
        let probe = ps[j];
        let a = duplicate_source_issue(es, j);
        let b = collision_issue(es, j);
        let c = noop_issue(e);
        let d = at_line(e.line, target_issues_spec(e.plan.new));
        let f = missing_source_issue(e, probe);
        let g = existing_target_issue(e, probe);
        let h = duration_issue(e, probe);
        let all = entry_issues(es, j, probe);
        assert(all == a + b + c + d + f + g + h);
        assert forall|i: int| 0 <= i < j implies es[i].plan.old != e.plan.old by {
            if es[i].plan.old == e.plan.old {
                lemma_first_old_found(es, j, e.plan.old, 0, i);
                assert(all[0] == a[0]);
                lemma_error_reported(es, ps, j, 0);
            }
        }
        assert forall|i: int| 0 <= i < j implies es[i].plan.new != e.plan.new by {
            if es[i].plan.new == e.plan.new {
                lemma_first_new_found(es, j, e.plan.new, 0, i);
                let m = a.len() as int;
                assert(all[m] == b[0]);
                lemma_error_reported(es, ps, j, m);
            }
        }
        if e.plan.old == e.plan.new {
            let m = (a.len() + b.len()) as int;
            assert(all[m] == c[0]);
            lemma_error_reported(es, ps, j, m);
        }
        if !probe.source_exists {
            let m = (a.len() + b.len() + c.len() + d.len()) as int;
            assert(all[m] == f[0]);
            lemma_error_reported(es, ps, j, m);
        }
        if e.plan.old != e.plan.new && probe.target_exists {
            let m = (a.len() + b.len() + c.len() + d.len() + f.len()) as int;
            assert(all[m] == g[0]);
            lemma_error_reported(es, ps, j, m);
        }
    }
    assert forall|i: int, j: int| 0 <= i < j < es.len() implies es[i].plan.old != es[j].plan.old
        && es[i].plan.new != es[j].plan.new by {
        assert(entry_safe(es, ps, j));
    }
    assert forall|i: int| 0 <= i < es.len() implies es[i].plan.old != es[i].plan.new
        && ps[i].source_exists && !ps[i].target_exists by {
        assert(entry_safe(es, ps, i));
    }
}


// ---------------------------------------------------------------------------
// What each check reports
// ---------------------------------------------------------------------------
proof fn lemma_first_old(es: Seq<EntryV>, i: int, x: Seq<char>, lo: int)
    requires
        0 <= lo <= i <= es.len(),
    ensures
        match first_old(es, i, x, lo) {
            Some(j) => lo <= j < i && es[j].plan.old == x && forall|k: int|
                lo <= k < j ==> (#[trigger] es[k]).plan.old != x,
            None => forall|k: int| lo <= k < i ==> (#[trigger] es[k]).plan.old != x,
        },
    decreases i - lo,
{
    if lo < i {
        lemma_first_old(es, i, x, lo + 1);
    }
}

proof fn lemma_first_new(es: Seq<EntryV>, i: int, x: Seq<char>, lo: int)
    requires
        0 <= lo <= i <= es.len(),
    ensures
        match first_new(es, i, x, lo) {
            Some(j) => lo <= j < i && es[j].plan.new == x && forall|k: int|
                lo <= k < j ==> (#[trigger] es[k]).plan.new != x,
            None => forall|k: int| lo <= k < i ==> (#[trigger] es[k]).plan.new != x,
        },
    decreases i - lo,
{
    if lo < i {
        lemma_first_new(es, i, x, lo + 1);
    }
}

/// Entry `j` is the first before entry `i` with the same source.
pub open spec fn first_same_source(es: Seq<EntryV>, i: int, j: int) -> bool {
    &&& 0 <= j < i
    &&& es[j].plan.old == es[i].plan.old
    &&& forall|k: int| 0 <= k < j ==> (#[trigger] es[k]).plan.old != es[i].plan.old
}

/// Entry `j` is the first before entry `i` with the same target.
pub open spec fn first_same_target(es: Seq<EntryV>, i: int, j: int) -> bool {
    &&& 0 <= j < i
    &&& es[j].plan.new == es[i].plan.new
    &&& forall|k: int| 0 <= k < j ==> (#[trigger] es[k]).plan.new != es[i].plan.new
}

/// Entry `i` draws the duplicate-source error exactly when an earlier entry
/// has the same source, and the error names the line of the first such
/// entry; the collision error exactly when an earlier entry has the same
/// target, naming the first such; and the no-op error exactly when its
/// source and target are the same. These open the entry's issues.
pub proof fn lemma_duplicates_reported(es: Seq<EntryV>, i: int, p: ProbeV)
    requires
        0 <= i < es.len(),
    ensures
        (exists|j: int| 0 <= j < i && (#[trigger] es[j]).plan.old == es[i].plan.old) <==> duplicate_source_issue(es, i).len() > 0,
        forall|j: int|
            #[trigger] first_same_source(es, i, j) ==> duplicate_source_issue(es, i) == error_at(
                es[i].line,
                "source '"@ + es[i].plan.old + "' already appears on line "@ + number::decimal(
                    es[j].line as nat,
                ),
            ),
        (exists|j: int| 0 <= j < i && (#[trigger] es[j]).plan.new == es[i].plan.new) <==> collision_issue(es, i).len() > 0,
        forall|j: int|
            #[trigger] first_same_target(es, i, j) ==> collision_issue(es, i) == error_at(
                es[i].line,
                "target '"@ + es[i].plan.new + "' collides with line "@ + number::decimal(
                    es[j].line as nat,
                ),
            ),
        noop_issue(es[i]).len() > 0 <==> es[i].plan.old == es[i].plan.new,
        entry_issues(es, i, p).take(
            (duplicate_source_issue(es, i) + collision_issue(es, i) + noop_issue(es[i])).len() as int,
        ) == duplicate_source_issue(es, i) + collision_issue(es, i) + noop_issue(es[i]),
{
    lemma_first_old(es, i, es[i].plan.old, 0);
    lemma_first_new(es, i, es[i].plan.new, 0);
    assert forall|j: int| #[trigger] first_same_source(es, i, j) implies first_old(
        es,
        i,
        es[i].plan.old,
        0,
    ) == Some(j) by {
        let f = first_old(es, i, es[i].plan.old, 0);
        if let Some(j2) = f {
            if j2 < j {
                assert(es[j2].plan.old != es[i].plan.old);
            } else if j < j2 {
                assert(es[j].plan.old != es[i].plan.old);
            }
        } else {
            assert(es[j].plan.old != es[i].plan.old);
        }
    }
    assert forall|j: int| #[trigger] first_same_target(es, i, j) implies first_new(
        es,
        i,
        es[i].plan.new,
        0,
    ) == Some(j) by {
        let f = first_new(es, i, es[i].plan.new, 0);
        if let Some(j2) = f {
            if j2 < j {
                assert(es[j2].plan.new != es[i].plan.new);
            } else if j < j2 {
                assert(es[j].plan.new != es[i].plan.new);
            }
        } else {
            assert(es[j].plan.new != es[i].plan.new);
        }
    }
    if let Some(j) = first_old(es, i, es[i].plan.old, 0) {
        assert(es[j].plan.old == es[i].plan.old);
    }
    if let Some(j) = first_new(es, i, es[i].plan.new, 0) {
        assert(es[j].plan.new == es[i].plan.new);
    }
    let head = duplicate_source_issue(es, i) + collision_issue(es, i) + noop_issue(es[i]);
    assert(entry_issues(es, i, p).take(head.len() as int) =~= head);
}

/// Every issue of an entry carries the entry's line.
proof fn lemma_entry_lines(es: Seq<EntryV>, i: int, p: ProbeV)
    requires
        0 <= i < es.len(),
    ensures
        forall|k: int|
            0 <= k < entry_issues(es, i, p).len() ==> (#[trigger] entry_issues(es, i, p)[k]).line
                == es[i].line,
{
    let l = es[i].line;
    let a = duplicate_source_issue(es, i);
    let b = collision_issue(es, i);
    let c = noop_issue(es[i]);
    let d = at_line(l, target_issues_spec(es[i].plan.new));
    let e = missing_source_issue(es[i], p);
    let f = existing_target_issue(es[i], p);
    let g = duration_issue(es[i], p);
    let all = entry_issues(es, i, p);
    assert(all == a + b + c + d + e + f + g);
    assert forall|k: int| 0 <= k < all.len() implies (#[trigger] all[k]).line == l by {
        let n1 = a.len() as int;
        let n2 = n1 + b.len();
        let n3 = n2 + c.len();
        let n4 = n3 + d.len();
        let n5 = n4 + e.len();
        let n6 = n5 + f.len();
        if k < n1 {
            assert(all[k] == a[k]);
        } else if k < n2 {
            assert(all[k] == b[k - n1]);
        } else if k < n3 {
            assert(all[k] == c[k - n2]);
        } else if k < n4 {
            assert(all[k] == d[k - n3]);
        } else if k < n5 {
            assert(all[k] == e[k - n4]);
        } else if k < n6 {
            assert(all[k] == f[k - n5]);
        } else {
            assert(all[k] == g[k - n6]);
        }
    }
}

proof fn lemma_issues_upto_layout(es: Seq<EntryV>, ps: Seq<ProbeV>, m: int)
    requires
        0 <= m <= es.len(),
    ensures
        issues_upto(es, ps, m) == Seq::new(m as nat, |i: int| entry_issues(es, i, ps[i])).flatten_alt(),
        forall|k: int|
            0 <= k < issues_upto(es, ps, m).len() ==> exists|i: int|
                0 <= i < m && #[trigger] issues_upto(es, ps, m)[k].line == (#[trigger] es[i]).line,
    decreases m,
{
    let f = |i: int| entry_issues(es, i, ps[i]);
    if m > 0 {
        lemma_issues_upto_layout(es, ps, m - 1);
        lemma_entry_lines(es, m - 1, ps[m - 1]);
        let prev = issues_upto(es, ps, m - 1);
        let cur = issues_upto(es, ps, m);
        assert(Seq::new(m as nat, f).drop_last() =~= Seq::new((m - 1) as nat, f));
        assert forall|k: int| 0 <= k < cur.len() implies exists|i: int|
            0 <= i < m && #[trigger] cur[k].line == (#[trigger] es[i]).line by {
            if k < prev.len() {
                assert(cur[k] == prev[k]);
                let i = choose|i: int| 0 <= i < m - 1 && #[trigger] prev[k].line == (#[trigger] es[i]).line;
                assert(cur[k].line == es[i].line);
            } else {
                assert(cur[k] == entry_issues(es, m - 1, ps[m - 1])[k - prev.len()]);
                assert(cur[k].line == es[m - 1].line);
            }
        }
    } else {
        assert(Seq::new(0, f).flatten_alt() =~= Seq::<IssueV>::empty());
    }
}

/// The issues of a plan come entry by entry, in plan order, each entry's
/// issues carrying its line; an entry's issues hold its target path's
/// issues; and every issue is on the line of some entry. Validation reads
/// nothing but the entries and what the probes say of them.
pub proof fn lemma_validate_by_entry(es: Seq<EntryV>, ps: Seq<ProbeV>)
    ensures
        validate_spec(es, ps) == Seq::new(es.len(), |i: int| entry_issues(es, i, ps[i])).flatten(),
        forall|i: int, k: int|
            0 <= i < es.len() && 0 <= k < entry_issues(es, i, ps[i]).len() ==> (#[trigger] entry_issues(
                es,
                i,
                ps[i],
            )[k]).line == es[i].line,
        forall|i: int|
            0 <= i < es.len() ==> (#[trigger] entry_issues(es, i, ps[i])).subrange(
                (duplicate_source_issue(es, i) + collision_issue(es, i) + noop_issue(es[i])).len() as int,
                (duplicate_source_issue(es, i) + collision_issue(es, i) + noop_issue(es[i])).len() as int
                    + target_issues_spec(es[i].plan.new).len(),
            ) == at_line(es[i].line, target_issues_spec(es[i].plan.new)),
        forall|k: int|
            0 <= k < validate_spec(es, ps).len() ==> exists|i: int|
                0 <= i < es.len() && #[trigger] validate_spec(es, ps)[k].line == (#[trigger] es[i]).line,
{
    lemma_issues_upto_layout(es, ps, es.len() as int);
    Seq::new(es.len(), |i: int| entry_issues(es, i, ps[i])).lemma_flatten_and_flatten_alt_are_equivalent();
    assert forall|i: int, k: int|
        0 <= i < es.len() && 0 <= k < entry_issues(es, i, ps[i]).len() implies (#[trigger] entry_issues(
            es,
            i,
            ps[i],
        )[k]).line == es[i].line by {
        lemma_entry_lines(es, i, ps[i]);
    }
    assert forall|i: int| 0 <= i < es.len() implies (#[trigger] entry_issues(es, i, ps[i])).subrange(
        (duplicate_source_issue(es, i) + collision_issue(es, i) + noop_issue(es[i])).len() as int,
        (duplicate_source_issue(es, i) + collision_issue(es, i) + noop_issue(es[i])).len() as int
            + target_issues_spec(es[i].plan.new).len(),
    ) == at_line(es[i].line, target_issues_spec(es[i].plan.new)) by {
        let head = duplicate_source_issue(es, i) + collision_issue(es, i) + noop_issue(es[i]);
        let d = at_line(es[i].line, target_issues_spec(es[i].plan.new));
        assert(entry_issues(es, i, ps[i]).subrange(head.len() as int, head.len() as int + d.len()) =~= d);
    }
}

// ---------------------------------------------------------------------------
// What a target path is reported for
// ---------------------------------------------------------------------------
/// A component that names no directory or file: blank, `.` or `..`.
pub open spec fn bad_component(c: Seq<char>) -> bool {
    text::trim(c).len() == 0 || c == seq!['.'] || c == seq!['.', '.']
}

/// The `/`-separated components of a target, after one leading `/`.
pub open spec fn target_components(new: Seq<char>) -> Seq<Seq<char>> {
    text::split(relative_part(new), '/')
}

/// The target's extension is `mkv` or `mp4`, in any case.
pub open spec fn has_video_extension(new: Seq<char>) -> bool {
    paths::extension(new) matches Some(e) && expected_extension(e)
}

pub open spec fn extension_warning(new: Seq<char>) -> (Severity, Seq<char>) {
    (Severity::Warning, "target '"@ + new + "' has an unexpected extension (expected one of mkv, mp4)"@)
}

proof fn lemma_components_errors(new: Seq<char>, cs: Seq<Seq<char>>)
    ensures
        (exists|k: int| 0 <= k < components_issues(new, cs).len() && (#[trigger] components_issues(new, cs)[k]).0 == Severity::Error)
            <==> (exists|m: int| 0 <= m < cs.len() && bad_component(#[trigger] cs[m])),
        components_issues(new, cs) == Seq::new(cs.len(), |m: int| component_issue(new, cs[m])).flatten_alt(),
    decreases cs.len(),
{
    let f = |m: int| component_issue(new, cs[m]);
    if cs.len() > 0 {
        let prior = cs.drop_last();
        lemma_components_errors(new, prior);
        let a = components_issues(new, prior);
        let b = component_issue(new, cs.last());
        let all = components_issues(new, cs);
        assert(all == a + b);
        assert(Seq::new(cs.len(), f).drop_last() =~= Seq::new(prior.len(), |m: int| component_issue(new, prior[m])));
        if exists|k: int| 0 <= k < all.len() && (#[trigger] all[k]).0 == Severity::Error {
            let k = choose|k: int| 0 <= k < all.len() && (#[trigger] all[k]).0 == Severity::Error;
            if k < a.len() {
                assert(all[k] == a[k]);
                let m = choose|m: int| 0 <= m < prior.len() && bad_component(#[trigger] prior[m]);
                assert(cs[m] == prior[m]);
            } else {
                assert(all[k] == b[k - a.len()]);
                assert(bad_component(cs[cs.len() - 1]));
            }
        }
        if exists|m: int| 0 <= m < cs.len() && bad_component(#[trigger] cs[m]) {
            let m = choose|m: int| 0 <= m < cs.len() && bad_component(#[trigger] cs[m]);
            if m < prior.len() {
                assert(prior[m] == cs[m]);
                let k = choose|k: int| 0 <= k < a.len() && (#[trigger] a[k]).0 == Severity::Error;
                assert(all[k] == a[k]);
            } else {
                assert(all[a.len() as int] == b[0]);
            }
        }
    } else {
        assert(Seq::new(0, f).flatten_alt() =~= Seq::<(Severity, Seq<char>)>::empty());
    }
}

/// A target draws an error exactly when one of its components is blank,
/// `.` or `..`. Its issues are those of its components in order (an error
/// for such a component, otherwise a warning for one holding a character
/// illegal on some filesystems), then a warning exactly when its extension
/// is not `mkv` or `mp4`.
pub proof fn lemma_target_issues(new: Seq<char>)
    ensures
        (exists|k: int| 0 <= k < target_issues_spec(new).len() && (#[trigger] target_issues_spec(new)[k]).0 == Severity::Error)
            <==> (exists|m: int| 0 <= m < target_components(new).len() && bad_component(#[trigger] target_components(new)[m])),
        target_issues_spec(new) == Seq::new(
            target_components(new).len(),
            |m: int| component_issue(new, target_components(new)[m]),
        ).flatten() + if has_video_extension(new) {
            Seq::empty()
        } else {
            seq![extension_warning(new)]
        },
        forall|c: Seq<char>|
            #[trigger] component_issue(new, c) == if bad_component(c) {
                seq![(Severity::Error, component_issue(new, c)[0].1)]
            } else if exists|k: int| 0 <= k < c.len() && is_risky(c[k]) {
                seq![(Severity::Warning, "target component '"@ + c + "' contains characters that are illegal on some filesystems"@)]
            } else {
                Seq::empty()
            },
{
    let cs = target_components(new);
    lemma_components_errors(new, cs);
    Seq::new(cs.len(), |m: int| component_issue(new, cs[m])).lemma_flatten_and_flatten_alt_are_equivalent();
    let ci = components_issues(new, cs);
    let t = target_issues_spec(new);
    let tail: Seq<(Severity, Seq<char>)> = if has_video_extension(new) {
        Seq::empty()
    } else {
        seq![extension_warning(new)]
    };
    assert(t == ci + tail);
    if exists|k: int| 0 <= k < t.len() && (#[trigger] t[k]).0 == Severity::Error {
        let k = choose|k: int| 0 <= k < t.len() && (#[trigger] t[k]).0 == Severity::Error;
        if k >= ci.len() {
            assert(t[k] == tail[k - ci.len()]);
        } else {
            assert(t[k] == ci[k]);
        }
    }
    if exists|m: int| 0 <= m < cs.len() && bad_component(#[trigger] cs[m]) {
        let k = choose|k: int| 0 <= k < ci.len() && (#[trigger] ci[k]).0 == Severity::Error;
        assert(t[k] == ci[k]);
    }
}


// ---------------------------------------------------------------------------
// The verdict
// ---------------------------------------------------------------------------
/// How many of the issues are errors.
pub open spec fn error_count(issues: Seq<IssueV>) -> nat
    decreases issues.len(),
{
    if issues.len() == 0 {
        0
    } else {
        error_count(issues.drop_last()) + if issues.last().severity == Severity::Error {
            1nat
        } else {
            0nat
        }
    }
}

proof fn lemma_error_count(issues: Seq<IssueV>)
    ensures
        error_count(issues) <= issues.len(),
        error_count(issues) == 0 <==> forall|t: int|
            0 <= t < issues.len() ==> (#[trigger] issues[t]).severity == Severity::Warning,
    decreases issues.len(),
{
    if issues.len() > 0 {
        let prior = issues.drop_last();
        lemma_error_count(prior);
        if error_count(issues) == 0 {
            assert forall|t: int| 0 <= t < issues.len() implies (#[trigger] issues[t]).severity
                == Severity::Warning by {
                if t < prior.len() {
                    assert(issues[t] == prior[t]);
                }
            }
        }
        if forall|t: int| 0 <= t < issues.len() ==> (#[trigger] issues[t]).severity == Severity::Warning {
            assert forall|t: int| 0 <= t < prior.len() implies (#[trigger] prior[t]).severity
                == Severity::Warning by {
                assert(issues[t] == prior[t]);
            }
            assert(issues[issues.len() - 1].severity == Severity::Warning);
        }
    }
}

/// The refusal to go on with a plan that has errors.
pub open spec fn refusal_text(errors: nat) -> Seq<char> {
    number::decimal(errors) + " error(s) found \u{2014} fix the plan before applying"@
}

/// Whether a validated plan may be applied: only when none of its issues is
/// an error; otherwise the refusal, which counts the errors.
pub fn verdict(issues: &[Issue]) -> (r: Result<(), String>)
    ensures
        match r {
            Ok(()) => error_count(issues_view(issues@)) == 0,
            Err(m) => error_count(issues_view(issues@)) > 0 && m@ == refusal_text(
                error_count(issues_view(issues@)),
            ),
        },
{
    let ghost iv = issues_view(issues@);
    let mut errors: usize = 0;
    let mut i: usize = 0;
    while i < issues.len()
        invariant
            i <= issues.len(),
            iv == issues_view(issues@),
            errors == error_count(iv.take(i as int)),
        decreases issues.len() - i,
    {
        proof {
            lemma_error_count(iv.take(i as int));
            assert(iv.take(i + 1).drop_last() =~= iv.take(i as int));
            assert(iv.take(i + 1).last() == issues@[i as int]@);
        }
        if issues[i].severity == Severity::Error {
            errors = errors + 1;
        }
        i = i + 1;
    }
    assert(iv.take(issues.len() as int) =~= iv);
    if errors == 0 {
        Ok(())
    } else {
        let mut m = String::new();
        push_decimal(&mut m, errors as u64);
        m.append(" error(s) found \u{2014} fix the plan before applying");
        Err(m)
    }
}

/// A plan whose issues the verdict lets through is safe to apply: no two
/// entries share a source or a target, no entry renames a file onto itself,
/// every source exists and no target does.
pub proof fn lemma_verdict_means_safe(es: Seq<EntryV>, ps: Seq<ProbeV>)
    requires
        ps.len() == es.len(),
        error_count(validate_spec(es, ps)) == 0,
    ensures
        forall|i: int, j: int|
            0 <= i < j < es.len() ==> es[i].plan.old != es[j].plan.old && es[i].plan.new
                != es[j].plan.new,
        forall|i: int|
            0 <= i < es.len() ==> es[i].plan.old != es[i].plan.new && ps[i].source_exists
                && !ps[i].target_exists,
{
    lemma_error_count(validate_spec(es, ps));
    lemma_no_errors_means_safe(es, ps);
}


// ---------------------------------------------------------------------------
// The duration cross-check
// ---------------------------------------------------------------------------
/// Whenever an entry expects a duration, its source exists and the probe
/// found the file's duration outside the tolerance, validation reports an
/// error on that entry's line, whatever the expected duration is: the
/// message names the source, the measured and expected durations, the
/// difference, the tolerance and the target.
pub proof fn lemma_duration_mismatch_is_error(
    es: Seq<EntryV>,
    ps: Seq<ProbeV>,
    i: int,
    expected: u64,
    actual: Seq<char>,
    diff: Seq<char>,
    allowed: Seq<char>,
)
    requires
        ps.len() == es.len(),
        0 <= i < es.len(),
        es[i].plan.expected_duration_secs == Some(expected),
        ps[i].source_exists,
        ps[i].duration == (DurationCheckV::Mismatch { actual, diff, allowed }),
    ensures
        exists|t: int|
            0 <= t < validate_spec(es, ps).len() && #[trigger] validate_spec(es, ps)[t] == (IssueV {
                severity: Severity::Error,
                line: es[i].line,
                message: seq!['\''] + es[i].plan.old + "' duration "@ + actual
                    + "s differs from expected "@ + number::decimal(expected as nat) + "s by "@
                    + diff + "s (allowed "@ + allowed + "s) \u{2014} possible mismatch with '"@
                    + es[i].plan.new + seq!['\''],
            }),
{
    reveal_strlit("'");
    let off = lemma_entry_within(es, ps, i, es.len() as int);
    let all = entry_issues(es, i, ps[i]);
    let last = all.len() - 1;
    let d = duration_issue(es[i], ps[i]);
    assert(d.len() == 1);
    assert(all[last] == d[0]);
    assert(validate_spec(es, ps)[off + last] == all[last]);
    assert(d[0].message =~= seq!['\''] + es[i].plan.old + "' duration "@ + actual
        + "s differs from expected "@ + number::decimal(expected as nat) + "s by "@ + diff
        + "s (allowed "@ + allowed + "s) \u{2014} possible mismatch with '"@ + es[i].plan.new
        + seq!['\'']);
}

} // verus!
