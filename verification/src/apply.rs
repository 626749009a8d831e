//! Carrying out a validated plan. The library makes every decision, as two
//! state machines: `apply_step` walks the entries in order, and `copy_step`
//! moves one file across filesystems. The command line performs each action
//! on the filesystem and reports back, as an event, what happened.

use vstd::prelude::*;
use vstd::string::*;

use crate::number::{self, push_decimal};
use crate::paths;
use crate::rename_plan::{entries_view, EntryV, PlanEntry, PlanV, RenamePlan};
use crate::text;

verus! {

/// Why a step failed: the outermost message first, each later one the cause
/// of the one before it.
#[derive(Debug, Clone, PartialEq, Eq)]
pub struct Failure {
    pub chain: Vec<String>,
}

impl View for Failure {
    type V = Seq<Seq<char>>;

    open spec fn view(&self) -> Seq<Seq<char>> {
        text::views(self.chain@)
    }
}

fn failure1(a: String) -> (f: Failure)
    ensures
        f@ == seq![a@],
{
    let mut chain: Vec<String> = Vec::new();
    chain.push(a);
    proof {
        assert(text::views(chain@) =~= seq![a@]);
    }
    Failure { chain }
}

fn failure2(a: String, b: String) -> (f: Failure)
    ensures
        f@ == seq![a@, b@],
{
    let mut chain: Vec<String> = Vec::new();
    chain.push(a);
    chain.push(b);
    proof {
        assert(text::views(chain@) =~= seq![a@, b@]);
    }
    Failure { chain }
}

/// `outer`, caused by `inner`.
fn caused_by(outer: String, inner: Failure) -> (f: Failure)
    ensures
        f@ == seq![outer@] + inner@,
{
    let mut chain: Vec<String> = Vec::new();
    chain.push(outer);
    let n = inner.chain.len();
    let mut i: usize = 0;
    while i < n
        invariant
            n == inner.chain.len(),
            i <= n,
            text::views(chain@) == seq![outer@] + text::views(inner.chain@).take(i as int),
        decreases n - i,
    {
        let c = inner.chain[i].clone();
        assert(c@ == inner.chain@[i as int]@);
        let ghost before = chain@;
        chain.push(c);
        assert(text::views(chain@) =~= text::views(before).push(c@));
        assert(text::views(inner.chain@).take(i + 1) =~= text::views(inner.chain@).take(
            i as int,
        ).push(inner.chain@[i as int]@));
        assert(text::views(chain@) =~= seq![outer@] + text::views(inner.chain@).take(i + 1));
        i = i + 1;
    }
    assert(text::views(inner.chain@).take(n as int) =~= text::views(inner.chain@));
    Failure { chain }
}

// ---------------------------------------------------------------------------
// Messages
// ---------------------------------------------------------------------------
/// The refusal when a target turns up between validation and the rename.
pub open spec fn abort_text(new: Seq<char>) -> Seq<char> {
    "target '"@ + new + "' appeared since validation — aborting before overwriting it"@
}

pub open spec fn parent_context(parent: Seq<char>) -> Seq<char> {
    "could not create directory "@ + parent
}

/// `'old' to 'new'`.
pub open spec fn between(p: PlanV) -> Seq<char> {
    "'"@ + p.old + "' to '"@ + p.new + "'"@
}

/// `old -> new`.
pub open spec fn arrow(p: PlanV) -> Seq<char> {
    p.old + " -> "@ + p.new
}

pub open spec fn rename_context(p: PlanV) -> Seq<char> {
    "could not rename "@ + between(p)
}

pub open spec fn copy_context(p: PlanV) -> Seq<char> {
    "could not copy "@ + between(p) + " (cross-filesystem)"@
}

pub open spec fn renamed_line(p: PlanV) -> Seq<char> {
    "renamed: "@ + arrow(p)
}

pub open spec fn copied_line(p: PlanV) -> Seq<char> {
    "copied: "@ + arrow(p) + " (cross-filesystem)"@
}

pub open spec fn unexpected_apply() -> Seq<char> {
    "unexpected event while applying the plan"@
}

fn between_exec(head: &str, p: &RenamePlan) -> (r: String)
    ensures
        r@ == head@ + between(p@),
{
    let mut s = String::from_str(head);
    s.append("'");
    s.append(p.old.as_str());
    s.append("' to '");
    s.append(p.new.as_str());
    s.append("'");
    s
}

fn arrow_exec(head: &str, p: &RenamePlan) -> (r: String)
    ensures
        r@ == head@ + arrow(p@),
{
    let mut s = String::from_str(head);
    s.append(p.old.as_str());
    s.append(" -> ");
    s.append(p.new.as_str());
    s
}

// ---------------------------------------------------------------------------
// Walking the entries
// ---------------------------------------------------------------------------
/// Where the walk over the entries stands. An index names the entry being
/// worked on; `Reporting(n)` waits for a progress line to be shown before
/// entry `n` is started.
#[derive(Debug, Clone, Copy, PartialEq, Eq, Structural)]
pub enum ApplyState {
    Idle,
    MakingParent(usize),
    CheckingTarget(usize),
    Renaming(usize),
    Copying(usize),
    Reporting(usize),
    Finished,
    Failed,
}

impl View for ApplyState {
    type V = ApplyState;

    open spec fn view(&self) -> ApplyState {
        *self
    }
}

/// What happened to the last action.
#[derive(Debug, PartialEq, Eq)]
pub enum ApplyEvent {
    /// The walk is to begin.
    Started,
    /// The target's parent directory exists now.
    ParentMade,
    /// The target's parent directory could not be made.
    ParentFailed { parent: String, error: String },
    /// Whether the target exists.
    TargetExists(bool),
    /// The rename went through.
    Renamed,
    /// The rename failed; `crosses_devices` when source and target are on
    /// different filesystems.
    RenameFailed { crosses_devices: bool, error: String },
    /// How the copy across filesystems ended.
    CopyFinished(Result<(), Failure>),
    /// The progress line was shown.
    Logged,
}

pub enum ApplyEventV {
    Started,
    ParentMade,
    ParentFailed { parent: Seq<char>, error: Seq<char> },
    TargetExists(bool),
    Renamed,
    RenameFailed { crosses_devices: bool, error: Seq<char> },
    CopyFinished(Result<(), Seq<Seq<char>>>),
    Logged,
}

impl View for ApplyEvent {
    type V = ApplyEventV;

    open spec fn view(&self) -> ApplyEventV {
        match self {
            ApplyEvent::Started => ApplyEventV::Started,
            ApplyEvent::ParentMade => ApplyEventV::ParentMade,
            ApplyEvent::ParentFailed { parent, error } => ApplyEventV::ParentFailed {
                parent: parent@,
                error: error@,
            },
            ApplyEvent::TargetExists(b) => ApplyEventV::TargetExists(*b),
            ApplyEvent::Renamed => ApplyEventV::Renamed,
            ApplyEvent::RenameFailed { crosses_devices, error } => ApplyEventV::RenameFailed {
                crosses_devices: *crosses_devices,
                error: error@,
            },
            ApplyEvent::CopyFinished(r) => ApplyEventV::CopyFinished(
                match r {
                    Ok(()) => Ok(()),
                    Err(f) => Err(f@),
                },
            ),
            ApplyEvent::Logged => ApplyEventV::Logged,
        }
    }
}

/// What to do next.
#[derive(Debug, Clone, PartialEq, Eq)]
pub enum ApplyAction {
    /// Make the parent directory of entry i's target, if it has one.
    EnsureParent(usize),
    /// Find out whether entry i's target exists.
    CheckTarget(usize),
    /// Rename entry i's source to its target.
    Rename(usize),
    /// Move entry i across filesystems, with the `copy_step` machine.
    CopyThenRemove(usize),
    /// Show a progress line.
    Log(String),
    /// Stop with this failure.
    Fail(Failure),
    /// Nothing more to do.
    Done,
}

pub enum ApplyActionV {
    EnsureParent(usize),
    CheckTarget(usize),
    Rename(usize),
    CopyThenRemove(usize),
    Log(Seq<char>),
    Fail(Seq<Seq<char>>),
    Done,
}

impl View for ApplyAction {
    type V = ApplyActionV;

    open spec fn view(&self) -> ApplyActionV {
        match self {
            ApplyAction::EnsureParent(i) => ApplyActionV::EnsureParent(*i),
            ApplyAction::CheckTarget(i) => ApplyActionV::CheckTarget(*i),
            ApplyAction::Rename(i) => ApplyActionV::Rename(*i),
            ApplyAction::CopyThenRemove(i) => ApplyActionV::CopyThenRemove(*i),
            ApplyAction::Log(s) => ApplyActionV::Log(s@),
            ApplyAction::Fail(f) => ApplyActionV::Fail(f@),
            ApplyAction::Done => ApplyActionV::Done,
        }
    }
}

/// The indices a state holds stay within the entries.
pub open spec fn state_fits(len: nat, s: ApplyState) -> bool {
    match s {
        ApplyState::MakingParent(i) => i < len,
        ApplyState::CheckingTarget(i) => i < len,
        ApplyState::Renaming(i) => i < len,
        ApplyState::Copying(i) => i < len,
        ApplyState::Reporting(n) => n <= len,
        _ => true,
    }
}

/// Starting entry `n`, or finishing when there is none.
pub open spec fn begin(es: Seq<EntryV>, n: usize) -> (ApplyState, ApplyActionV) {
    if n < es.len() {
        (ApplyState::MakingParent(n), ApplyActionV::EnsureParent(n))
    } else {
        (ApplyState::Finished, ApplyActionV::Done)
    }
}

pub open spec fn unexpected_step() -> (ApplyState, ApplyActionV) {
    (ApplyState::Failed, ApplyActionV::Fail(seq![unexpected_apply()]))
}

/// One step of the walk: for each entry in turn, make the target's parent,
/// refuse a target that exists, rename, and fall back to a copy when the
/// rename crosses filesystems; any other failure stops the walk.
pub open spec fn apply_step_spec(es: Seq<EntryV>, s: ApplyState, e: ApplyEventV) -> (
    ApplyState,
    ApplyActionV,
) {
    match s {
        ApplyState::Idle => match e {
            ApplyEventV::Started => begin(es, 0),
            _ => unexpected_step(),
        },
        ApplyState::MakingParent(i) => match e {
            ApplyEventV::ParentMade => (ApplyState::CheckingTarget(i), ApplyActionV::CheckTarget(i)),
            ApplyEventV::ParentFailed { parent, error } => (
                ApplyState::Failed,
                ApplyActionV::Fail(seq![parent_context(parent), error]),
            ),
            _ => unexpected_step(),
        },
        ApplyState::CheckingTarget(i) => match e {
            ApplyEventV::TargetExists(exists) => if exists {
                (ApplyState::Failed, ApplyActionV::Fail(seq![abort_text(es[i as int].plan.new)]))
            } else {
                (ApplyState::Renaming(i), ApplyActionV::Rename(i))
            },
            _ => unexpected_step(),
        },
        ApplyState::Renaming(i) => match e {
            ApplyEventV::Renamed => (
                ApplyState::Reporting((i + 1) as usize),
                ApplyActionV::Log(renamed_line(es[i as int].plan)),
            ),
            ApplyEventV::RenameFailed { crosses_devices, error } => if crosses_devices {
                (ApplyState::Copying(i), ApplyActionV::CopyThenRemove(i))
            } else {
                (
                    ApplyState::Failed,
                    ApplyActionV::Fail(seq![rename_context(es[i as int].plan), error]),
                )
            },
            _ => unexpected_step(),
        },
        ApplyState::Copying(i) => match e {
            ApplyEventV::CopyFinished(r) => match r {
                Ok(()) => (
                    ApplyState::Reporting((i + 1) as usize),
                    ApplyActionV::Log(copied_line(es[i as int].plan)),
                ),
                Err(f) => (
                    ApplyState::Failed,
                    ApplyActionV::Fail(seq![copy_context(es[i as int].plan)] + f),
                ),
            },
            _ => unexpected_step(),
        },
        ApplyState::Reporting(n) => match e {
            ApplyEventV::Logged => begin(es, n),
            _ => unexpected_step(),
        },
        ApplyState::Finished => (ApplyState::Finished, ApplyActionV::Done),
        ApplyState::Failed => (ApplyState::Failed, ApplyActionV::Done),
    }
}

fn begin_exec(entries: &[PlanEntry], n: usize) -> (r: (ApplyState, ApplyAction))
    ensures
        r@ == begin(entries_view(entries@), n),
        state_fits(entries@.len(), r.0),
{
    if n < entries.len() {
        (ApplyState::MakingParent(n), ApplyAction::EnsureParent(n))
    } else {
        (ApplyState::Finished, ApplyAction::Done)
    }
}

fn unexpected_exec() -> (r: (ApplyState, ApplyAction))
    ensures
        r@ == unexpected_step(),
{
    (
        ApplyState::Failed,
        ApplyAction::Fail(failure1(String::from_str("unexpected event while applying the plan"))),
    )
}

/// One step of the walk over the entries; see `apply_step_spec`.
pub fn apply_step(entries: &[PlanEntry], state: ApplyState, event: ApplyEvent) -> (r: (
    ApplyState,
    ApplyAction,
))
    requires
        state_fits(entries@.len(), state),
    ensures
        r@ == apply_step_spec(entries_view(entries@), state, event@),
        state_fits(entries@.len(), r.0),
{
    let ghost es = entries_view(entries@);
    match state {
        ApplyState::Idle => match event {
            ApplyEvent::Started => begin_exec(entries, 0),
            _ => unexpected_exec(),
        },
        ApplyState::MakingParent(i) => match event {
            ApplyEvent::ParentMade => (ApplyState::CheckingTarget(i), ApplyAction::CheckTarget(i)),
            ApplyEvent::ParentFailed { parent, error } => {
                let mut m = String::from_str("could not create directory ");
                m.append(parent.as_str());
                (ApplyState::Failed, ApplyAction::Fail(failure2(m, error)))
            },
            _ => unexpected_exec(),
        },
        ApplyState::CheckingTarget(i) => match event {
            ApplyEvent::TargetExists(exists) => {
                if exists {
                    let mut m = String::from_str("target '");
                    m.append(entries[i].plan.new.as_str());
                    m.append("' appeared since validation — aborting before overwriting it");
                    assert(es[i as int].plan.new == entries@[i as int].plan.new@);
                    (ApplyState::Failed, ApplyAction::Fail(failure1(m)))
                } else {
                    (ApplyState::Renaming(i), ApplyAction::Rename(i))
                }
            },
            _ => unexpected_exec(),
        },
        ApplyState::Renaming(i) => match event {
            ApplyEvent::Renamed => {
                let p = &entries[i].plan;
                let m = arrow_exec("renamed: ", p);
                assert(es[i as int].plan == p@);
                (ApplyState::Reporting(i + 1), ApplyAction::Log(m))
            },
            ApplyEvent::RenameFailed { crosses_devices, error } => {
                if crosses_devices {
                    (ApplyState::Copying(i), ApplyAction::CopyThenRemove(i))
                } else {
                    let p = &entries[i].plan;
                    let m = between_exec("could not rename ", p);
                    assert(es[i as int].plan == p@);
                    (ApplyState::Failed, ApplyAction::Fail(failure2(m, error)))
                }
            },
            _ => unexpected_exec(),
        },
        ApplyState::Copying(i) => match event {
            ApplyEvent::CopyFinished(result) => {
                let p = &entries[i].plan;
                assert(es[i as int].plan == p@);
                match result {
                    Ok(()) => {
                        let mut m = arrow_exec("copied: ", p);
                        m.append(" (cross-filesystem)");
                        (ApplyState::Reporting(i + 1), ApplyAction::Log(m))
                    },
                    Err(f) => {
                        let mut m = between_exec("could not copy ", p);
                        m.append(" (cross-filesystem)");
                        (ApplyState::Failed, ApplyAction::Fail(caused_by(m, f)))
                    },
                }
            },
            _ => unexpected_exec(),
        },
        ApplyState::Reporting(n) => match event {
            ApplyEvent::Logged => begin_exec(entries, n),
            _ => unexpected_exec(),
        },
        ApplyState::Finished => (ApplyState::Finished, ApplyAction::Done),
        ApplyState::Failed => (ApplyState::Failed, ApplyAction::Done),
    }
}


// ---------------------------------------------------------------------------
// Moving one file across filesystems
// ---------------------------------------------------------------------------
/// The name the copy is written under until it is complete: the target's
/// file name with `.lyrebird-partial` appended, in the target's directory.
pub open spec fn partial_path_spec(target: Seq<char>) -> Seq<char> {
    paths::with_file_name_spec(target, paths::file_name_or_empty(target) + ".lyrebird-partial"@)
}

/// Where the copy of `target` is written before it is moved into place.
pub fn partial_path(target: &str) -> (r: String)
    ensures
        r@ == partial_path_spec(target@),
{
    let name = paths::file_name_with(target, ".lyrebird-partial");
    paths::with_file_name(target, name.as_str())
}

/// Where a move across filesystems stands: the bytes copied are kept until
/// the source's size is known, and a failure until the partial copy is gone.
#[derive(Debug, Clone, PartialEq, Eq)]
pub enum CopyState {
    Idle,
    Copying,
    Sizing(u64),
    Moving,
    RemovingSource,
    Cleaning(Failure),
    Finished,
}

pub enum CopyStateV {
    Idle,
    Copying,
    Sizing(u64),
    Moving,
    RemovingSource,
    Cleaning(Seq<Seq<char>>),
    Finished,
}

impl View for CopyState {
    type V = CopyStateV;

    open spec fn view(&self) -> CopyStateV {
        match self {
            CopyState::Idle => CopyStateV::Idle,
            CopyState::Copying => CopyStateV::Copying,
            CopyState::Sizing(n) => CopyStateV::Sizing(*n),
            CopyState::Moving => CopyStateV::Moving,
            CopyState::RemovingSource => CopyStateV::RemovingSource,
            CopyState::Cleaning(f) => CopyStateV::Cleaning(f@),
            CopyState::Finished => CopyStateV::Finished,
        }
    }
}

/// What happened to the last action of a move across filesystems.
#[derive(Debug, PartialEq, Eq)]
pub enum CopyEvent {
    /// The move is to begin.
    Started,
    /// The source was copied to the partial file: the bytes copied, or why not.
    Copied(Result<u64, String>),
    /// The source's size, or why it could not be read.
    Sized(Result<u64, String>),
    /// The partial file was renamed to the target, or why not.
    Moved(Result<(), String>),
    /// The source was removed, or why not.
    SourceRemoved(Result<(), String>),
    /// The partial file is gone.
    Cleaned,
}

pub enum CopyEventV {
    Started,
    Copied(Result<u64, Seq<char>>),
    Sized(Result<u64, Seq<char>>),
    Moved(Result<(), Seq<char>>),
    SourceRemoved(Result<(), Seq<char>>),
    Cleaned,
}

pub open spec fn unit_view(r: Result<(), String>) -> Result<(), Seq<char>> {
    match r {
        Ok(()) => Ok(()),
        Err(m) => Err(m@),
    }
}

pub open spec fn count_view(r: Result<u64, String>) -> Result<u64, Seq<char>> {
    match r {
        Ok(n) => Ok(n),
        Err(m) => Err(m@),
    }
}

impl View for CopyEvent {
    type V = CopyEventV;

    open spec fn view(&self) -> CopyEventV {
        match self {
            CopyEvent::Started => CopyEventV::Started,
            CopyEvent::Copied(r) => CopyEventV::Copied(count_view(*r)),
            CopyEvent::Sized(r) => CopyEventV::Sized(count_view(*r)),
            CopyEvent::Moved(r) => CopyEventV::Moved(unit_view(*r)),
            CopyEvent::SourceRemoved(r) => CopyEventV::SourceRemoved(unit_view(*r)),
            CopyEvent::Cleaned => CopyEventV::Cleaned,
        }
    }
}

/// What to do next in a move across filesystems.
#[derive(Debug, PartialEq, Eq)]
pub enum CopyAction {
    /// Copy the source to the partial file.
    Copy,
    /// Read the size of the source.
    ReadSourceSize,
    /// Rename the partial file to the target.
    MoveIntoPlace,
    /// Remove the source.
    RemoveSource,
    /// Remove the partial file, if it exists.
    RemovePartial,
    /// The move is over, with this outcome.
    Finish(Result<(), Failure>),
    /// Nothing more to do.
    Done,
}

pub enum CopyActionV {
    Copy,
    ReadSourceSize,
    MoveIntoPlace,
    RemoveSource,
    RemovePartial,
    Finish(Result<(), Seq<Seq<char>>>),
    Done,
}

impl View for CopyAction {
    type V = CopyActionV;

    open spec fn view(&self) -> CopyActionV {
        match self {
            CopyAction::Copy => CopyActionV::Copy,
            CopyAction::ReadSourceSize => CopyActionV::ReadSourceSize,
            CopyAction::MoveIntoPlace => CopyActionV::MoveIntoPlace,
            CopyAction::RemoveSource => CopyActionV::RemoveSource,
            CopyAction::RemovePartial => CopyActionV::RemovePartial,
            CopyAction::Finish(r) => CopyActionV::Finish(
                match r {
                    Ok(()) => Ok(()),
                    Err(f) => Err(f@),
                },
            ),
            CopyAction::Done => CopyActionV::Done,
        }
    }
}

/// The error when the copy is shorter or longer than the source.
pub open spec fn size_text(copied: u64, expected: u64) -> Seq<char> {
    "copied "@ + number::decimal(copied as nat) + " bytes but source is "@ + number::decimal(
        expected as nat,
    ) + " bytes"@
}

/// Give up with `f`, once the partial copy is removed.
pub open spec fn clean(f: Seq<Seq<char>>) -> (CopyStateV, CopyActionV) {
    (CopyStateV::Cleaning(f), CopyActionV::RemovePartial)
}

pub open spec fn unexpected_copy() -> Seq<char> {
    "unexpected event while copying"@
}

/// One step of a move across filesystems: copy to the partial file, check
/// that as many bytes were copied as the source holds, rename the partial
/// file into place, and only then remove the source. Any failure removes
/// the partial file before the move ends.
pub open spec fn copy_step_spec(s: CopyStateV, e: CopyEventV) -> (CopyStateV, CopyActionV) {
    match s {
        CopyStateV::Idle => match e {
            CopyEventV::Started => (CopyStateV::Copying, CopyActionV::Copy),
            _ => clean(seq![unexpected_copy()]),
        },
        CopyStateV::Copying => match e {
            CopyEventV::Copied(r) => match r {
                Ok(n) => (CopyStateV::Sizing(n), CopyActionV::ReadSourceSize),
                Err(m) => clean(seq!["copy failed"@, m]),
            },
            _ => clean(seq![unexpected_copy()]),
        },
        CopyStateV::Sizing(copied) => match e {
            CopyEventV::Sized(r) => match r {
                Ok(expected) => if copied == expected {
                    (CopyStateV::Moving, CopyActionV::MoveIntoPlace)
                } else {
                    clean(seq![size_text(copied, expected)])
                },
                Err(m) => clean(seq![m]),
            },
            _ => clean(seq![unexpected_copy()]),
        },
        CopyStateV::Moving => match e {
            CopyEventV::Moved(r) => match r {
                Ok(()) => (CopyStateV::RemovingSource, CopyActionV::RemoveSource),
                Err(m) => clean(seq!["could not move copy into place"@, m]),
            },
            _ => clean(seq![unexpected_copy()]),
        },
        CopyStateV::RemovingSource => match e {
            CopyEventV::SourceRemoved(r) => match r {
                Ok(()) => (CopyStateV::Finished, CopyActionV::Finish(Ok(()))),
                Err(m) => clean(seq!["copy succeeded but could not remove source"@, m]),
            },
            _ => clean(seq![unexpected_copy()]),
        },
        CopyStateV::Cleaning(f) => match e {
            CopyEventV::Cleaned => (CopyStateV::Finished, CopyActionV::Finish(Err(f))),
            _ => (CopyStateV::Cleaning(f), CopyActionV::RemovePartial),
        },
        CopyStateV::Finished => (CopyStateV::Finished, CopyActionV::Done),
    }
}

fn clean_exec(f: Failure) -> (r: (CopyState, CopyAction))
    ensures
        r@ == clean(f@),
{
    (CopyState::Cleaning(f), CopyAction::RemovePartial)
}

fn unexpected_copy_exec() -> (r: (CopyState, CopyAction))
    ensures
        r@ == clean(seq![unexpected_copy()]),
{
    clean_exec(failure1(String::from_str("unexpected event while copying")))
}

/// One step of a move across filesystems; see `copy_step_spec`.
pub fn copy_step(state: CopyState, event: CopyEvent) -> (r: (CopyState, CopyAction))
    ensures
        r@ == copy_step_spec(state@, event@),
{
    match state {
        CopyState::Idle => match event {
            CopyEvent::Started => (CopyState::Copying, CopyAction::Copy),
            _ => unexpected_copy_exec(),
        },
        CopyState::Copying => match event {
            CopyEvent::Copied(r) => match r {
                Ok(n) => (CopyState::Sizing(n), CopyAction::ReadSourceSize),
                Err(m) => clean_exec(failure2(String::from_str("copy failed"), m)),
            },
            _ => unexpected_copy_exec(),
        },
        CopyState::Sizing(copied) => match event {
            CopyEvent::Sized(r) => match r {
                Ok(expected) => {
                    if copied == expected {
                        (CopyState::Moving, CopyAction::MoveIntoPlace)
                    } else {
                        let mut m = String::from_str("copied ");
                        push_decimal(&mut m, copied);
                        m.append(" bytes but source is ");
                        push_decimal(&mut m, expected);
                        m.append(" bytes");
                        clean_exec(failure1(m))
                    }
                },
                Err(m) => clean_exec(failure1(m)),
            },
            _ => unexpected_copy_exec(),
        },
        CopyState::Moving => match event {
            CopyEvent::Moved(r) => match r {
                Ok(()) => (CopyState::RemovingSource, CopyAction::RemoveSource),
                Err(m) => clean_exec(
                    failure2(String::from_str("could not move copy into place"), m),
                ),
            },
            _ => unexpected_copy_exec(),
        },
        CopyState::RemovingSource => match event {
            CopyEvent::SourceRemoved(r) => match r {
                Ok(()) => (CopyState::Finished, CopyAction::Finish(Ok(()))),
                Err(m) => clean_exec(
                    failure2(String::from_str("copy succeeded but could not remove source"), m),
                ),
            },
            _ => unexpected_copy_exec(),
        },
        CopyState::Cleaning(f) => match event {
            CopyEvent::Cleaned => (CopyState::Finished, CopyAction::Finish(Err(f))),
            _ => (CopyState::Cleaning(f), CopyAction::RemovePartial),
        },
        CopyState::Finished => (CopyState::Finished, CopyAction::Done),
    }
}


// ---------------------------------------------------------------------------
// Laws of the walk
// ---------------------------------------------------------------------------
/// The state and actions after feeding `events`, one by one, to the walk
/// from state `s`.
pub open spec fn apply_run(es: Seq<EntryV>, s: ApplyState, events: Seq<ApplyEventV>) -> (
    ApplyState,
    Seq<ApplyActionV>,
)
    decreases events.len(),
{
    if events.len() == 0 {
        (s, Seq::empty())
    } else {
        let prev = apply_run(es, s, events.drop_last());
        let next = apply_step_spec(es, prev.0, events.last());
        (next.0, prev.1.push(next.1))
    }
}

/// The entry an action works on.
pub open spec fn entry_of(a: ApplyActionV) -> Option<usize> {
    match a {
        ApplyActionV::EnsureParent(i) => Some(i),
        ApplyActionV::CheckTarget(i) => Some(i),
        ApplyActionV::Rename(i) => Some(i),
        ApplyActionV::CopyThenRemove(i) => Some(i),
        _ => None,
    }
}

/// The place of an entry action in the order of work: entry by entry, and
/// within an entry the parent, the check, the rename, the copy.
pub open spec fn entry_rank(a: ApplyActionV) -> int {
    match a {
        ApplyActionV::EnsureParent(i) => 4 * i,
        ApplyActionV::CheckTarget(i) => 4 * i + 1,
        ApplyActionV::Rename(i) => 4 * i + 2,
        ApplyActionV::CopyThenRemove(i) => 4 * i + 3,
        _ => -1,
    }
}

/// The lowest rank of an entry action that may still come from state `s`.
spec fn rank_floor(s: ApplyState) -> int {
    match s {
        ApplyState::MakingParent(i) => 4 * i + 1,
        ApplyState::CheckingTarget(i) => 4 * i + 2,
        ApplyState::Renaming(i) => 4 * i + 3,
        ApplyState::Copying(i) => 4 * i + 4,
        ApplyState::Reporting(n) => 4 * n,
        _ => 0,
    }
}

spec fn is_terminal(s: ApplyState) -> bool {
    s is Finished || s is Failed
}

/// The entry actions of `acts` come in strictly increasing rank, each names
/// an entry, and nothing but `Done` follows a `Fail`.
pub open spec fn walk_in_order(len: nat, acts: Seq<ApplyActionV>) -> bool {
    &&& forall|j: int, k: int|
        #![trigger acts[j], acts[k]]
        0 <= j < k < acts.len() && entry_of(acts[j]) is Some && entry_of(acts[k]) is Some
            ==> entry_rank(acts[j]) < entry_rank(acts[k])
    &&& forall|k: int| #![trigger acts[k]] 0 <= k < acts.len() && entry_of(acts[k]) is Some ==> entry_of(acts[k])->0 < len
    &&& forall|j: int, k: int|
        #![trigger acts[j], acts[k]]
        0 <= j < k < acts.len() && acts[j] is Fail ==> acts[k] is Done
}

proof fn lemma_step_facts(es: Seq<EntryV>, s: ApplyState, e: ApplyEventV)
    requires
        es.len() <= usize::MAX,
        state_fits(es.len(), s),
    ensures
        ({
            let (s2, a) = apply_step_spec(es, s, e);
            &&& state_fits(es.len(), s2)
            &&& is_terminal(s) ==> s2 == s && a is Done
            &&& entry_of(a) is Some ==> !is_terminal(s) && entry_rank(a) >= rank_floor(s)
                && entry_of(a)->0 < es.len() && (!is_terminal(s2) ==> rank_floor(s2) > entry_rank(
                a,
            ))
            &&& entry_of(a) is None && !is_terminal(s) && !is_terminal(s2) ==> rank_floor(s2)
                >= rank_floor(s)
            &&& a is Fail ==> s2 is Failed
        }),
{
}

proof fn lemma_run_invariant(es: Seq<EntryV>, events: Seq<ApplyEventV>)
    requires
        es.len() <= usize::MAX,
    ensures
        ({
            let (s, acts) = apply_run(es, ApplyState::Idle, events);
            &&& state_fits(es.len(), s)
            &&& walk_in_order(es.len(), acts)
            &&& !is_terminal(s) ==> forall|k: int|
                #![trigger acts[k]]
                0 <= k < acts.len() && entry_of(acts[k]) is Some ==> entry_rank(acts[k])
                    < rank_floor(s)
            &&& forall|k: int| #![trigger acts[k]] 0 <= k < acts.len() && acts[k] is Fail ==> s is Failed
        }),
    decreases events.len(),
{
    if events.len() > 0 {
        lemma_run_invariant(es, events.drop_last());
        let (s1, acts1) = apply_run(es, ApplyState::Idle, events.drop_last());
        lemma_step_facts(es, s1, events.last());
        let (s2, a) = apply_step_spec(es, s1, events.last());
        let acts = acts1.push(a);
        assert(apply_run(es, ApplyState::Idle, events) == (s2, acts));
        let n = acts1.len() as int;
        assert forall|j: int, k: int|
            #![trigger acts[j], acts[k]]
            0 <= j < k < acts.len() && entry_of(acts[j]) is Some && entry_of(acts[k]) is Some
                implies entry_rank(acts[j]) < entry_rank(acts[k]) by {
            if k == n {
                assert(acts[j] == acts1[j]);
            } else {
                assert(acts[j] == acts1[j] && acts[k] == acts1[k]);
            }
        }
        assert forall|j: int, k: int|
            #![trigger acts[j], acts[k]]
            0 <= j < k < acts.len() && acts[j] is Fail implies acts[k] is Done by {
            assert(acts[j] == acts1[j]);
            if k < n {
                assert(acts[k] == acts1[k]);
            }
        }
        assert forall|k: int| #![trigger acts[k]] 0 <= k < acts.len() && entry_of(acts[k]) is Some implies entry_of(acts[k])->0 < es.len() by {
            if k < n {
                assert(acts[k] == acts1[k]);
            }
        }
        assert forall|k: int| #![trigger acts[k]] 0 <= k < acts.len() && acts[k] is Fail implies s2 is Failed by {
            if k < n {
                assert(acts[k] == acts1[k]);
            }
        }
        if !is_terminal(s2) {
            assert forall|k: int|
                #![trigger acts[k]]
                0 <= k < acts.len() && entry_of(acts[k]) is Some implies entry_rank(acts[k])
                    < rank_floor(s2) by {
                if k < n {
                    assert(acts[k] == acts1[k]);
                }
            }
        }
    }
}

/// However the filesystem answers, for any plan (whose length, like that of
/// every plan in memory, fits in `usize`), the walk works on the entries in
/// order:
/// every action on an entry comes after the actions on earlier entries and
/// after the earlier stages of its own entry, so each is asked for at most
/// once; every such action names an entry of the plan; and after a `Fail`
/// only `Done` follows.
pub proof fn lemma_walk_in_order(es: Seq<EntryV>, events: Seq<ApplyEventV>)
    requires
        es.len() <= usize::MAX,
    ensures
        walk_in_order(es.len(), apply_run(es, ApplyState::Idle, events).1),
{
    lemma_run_invariant(es, events);
}

/// `e` is the successful answer to what state `s` waits for: the walk
/// started, the parent made, the target free, the rename done or refused
/// across filesystems, the copy finished well, the line shown.
pub open spec fn success_answer(s: ApplyState, e: ApplyEventV) -> bool {
    match s {
        ApplyState::Idle => e is Started,
        ApplyState::MakingParent(_) => e is ParentMade,
        ApplyState::CheckingTarget(_) => e == ApplyEventV::TargetExists(false),
        ApplyState::Renaming(_) => e is Renamed || (e matches ApplyEventV::RenameFailed {
            crosses_devices,
            ..
        } && crosses_devices),
        ApplyState::Copying(_) => e == ApplyEventV::CopyFinished(Ok(())),
        ApplyState::Reporting(_) => e is Logged,
        _ => true,
    }
}

/// Every event of `events` is the successful answer to the state the walk
/// is in when it comes.
pub open spec fn all_succeed(es: Seq<EntryV>, events: Seq<ApplyEventV>) -> bool {
    forall|k: int|
        0 <= k < events.len() ==> success_answer(
            apply_run(es, ApplyState::Idle, events.take(k)).0,
            #[trigger] events[k],
        )
}

/// Entry `j` was started in `acts`: its parent directory was asked for.
pub open spec fn was_started(acts: Seq<ApplyActionV>, j: int) -> bool {
    exists|k: int| 0 <= k < acts.len() && #[trigger] acts[k] == ApplyActionV::EnsureParent(j as usize)
}

/// Entries `0..n` were all started in `acts`.
pub open spec fn started_upto(acts: Seq<ApplyActionV>, n: int) -> bool {
    forall|j: int| 0 <= j < n ==> #[trigger] was_started(acts, j)
}

proof fn lemma_started_grows(acts: Seq<ApplyActionV>, a: ApplyActionV, n: int)
    requires
        started_upto(acts, n),
    ensures
        started_upto(acts.push(a), n),
{
    assert forall|j: int| 0 <= j < n implies #[trigger] was_started(acts.push(a), j) by {
        assert(was_started(acts, j));
        let k = choose|k: int|
            0 <= k < acts.len() && #[trigger] acts[k] == ApplyActionV::EnsureParent(j as usize);
        assert(acts.push(a)[k] == acts[k]);
    }
}

proof fn lemma_success_invariant(es: Seq<EntryV>, events: Seq<ApplyEventV>)
    requires
        es.len() <= usize::MAX,
        all_succeed(es, events),
    ensures
        ({
            let (s, acts) = apply_run(es, ApplyState::Idle, events);
            &&& state_fits(es.len(), s)
            &&& !(s is Failed)
            &&& match s {
                ApplyState::MakingParent(i) => started_upto(acts, i + 1),
                ApplyState::CheckingTarget(i) => started_upto(acts, i + 1),
                ApplyState::Renaming(i) => started_upto(acts, i + 1),
                ApplyState::Copying(i) => started_upto(acts, i + 1),
                ApplyState::Reporting(n) => started_upto(acts, n as int),
                ApplyState::Finished => started_upto(acts, es.len() as int),
                _ => true,
            }
        }),
    decreases events.len(),
{
    if events.len() > 0 {
        let prior = events.drop_last();
        assert forall|k: int| 0 <= k < prior.len() implies success_answer(
            apply_run(es, ApplyState::Idle, prior.take(k)).0,
            #[trigger] prior[k],
        ) by {
            assert(prior.take(k) =~= events.take(k));
            assert(prior[k] == events[k]);
        }
        lemma_success_invariant(es, prior);
        let (s1, acts1) = apply_run(es, ApplyState::Idle, prior);
        let e = events.last();
        assert(events.take(prior.len() as int) =~= prior);
        assert(success_answer(s1, events[prior.len() as int]));
        let (s2, a) = apply_step_spec(es, s1, e);
        let acts = acts1.push(a);
        assert(apply_run(es, ApplyState::Idle, events) == (s2, acts));
        match s1 {
            ApplyState::MakingParent(i) => lemma_started_grows(acts1, a, i + 1),
            ApplyState::CheckingTarget(i) => lemma_started_grows(acts1, a, i + 1),
            ApplyState::Renaming(i) => lemma_started_grows(acts1, a, i + 1),
            ApplyState::Copying(i) => lemma_started_grows(acts1, a, i + 1),
            ApplyState::Finished => lemma_started_grows(acts1, a, es.len() as int),
            _ => {},
        }
        match s1 {
            ApplyState::Idle => {
                if es.len() > 0 {
                    assert(acts[acts1.len() as int] == ApplyActionV::EnsureParent(0));
                    assert(was_started(acts, 0));
                }
            },
            ApplyState::Reporting(n) => {
                lemma_started_grows(acts1, a, n as int);
                if n < es.len() {
                    assert(acts[acts1.len() as int] == ApplyActionV::EnsureParent(n));
                    assert forall|j: int| 0 <= j < n + 1 implies #[trigger] was_started(acts, j) by {
                        if j < n {
                            assert(was_started(acts, j));
                        } else {
                            assert(acts[acts1.len() as int] == ApplyActionV::EnsureParent(j as usize));
                        }
                    }
                }
            },
            _ => {},
        }
    }
}

/// When every action succeeds (or a rename is refused only for crossing
/// filesystems, and the copy then succeeds), the walk does not finish before
/// it has started every entry of the plan: whenever it has reached its end,
/// it has asked for the parent directory of entry `i`, for every `i`.
pub proof fn lemma_walk_covers_every_entry(es: Seq<EntryV>, events: Seq<ApplyEventV>)
    requires
        es.len() <= usize::MAX,
        all_succeed(es, events),
    ensures
        apply_run(es, ApplyState::Idle, events).0 is Finished ==> forall|i: int|
            0 <= i < es.len() ==> #[trigger] was_started(apply_run(es, ApplyState::Idle, events).1, i),
        !(apply_run(es, ApplyState::Idle, events).0 is Failed),
{
    lemma_success_invariant(es, events);
}

/// A rename is asked for only right after the check found entry `i`'s
/// target free.
pub proof fn lemma_rename_needs_free_target(
    es: Seq<EntryV>,
    s: ApplyState,
    e: ApplyEventV,
    i: usize,
)
    requires
        apply_step_spec(es, s, e).1 == ApplyActionV::Rename(i),
    ensures
        s == ApplyState::CheckingTarget(i),
        e == ApplyEventV::TargetExists(false),
{
}

/// A target that exists stops the walk with the refusal, which names it;
/// once stopped, the walk asks for nothing more.
pub proof fn lemma_existing_target_stops(es: Seq<EntryV>, i: usize, e: ApplyEventV)
    ensures
        apply_step_spec(es, ApplyState::CheckingTarget(i), ApplyEventV::TargetExists(true)) == (
            ApplyState::Failed,
            ApplyActionV::Fail(seq![abort_text(es[i as int].plan.new)]),
        ),
        apply_step_spec(es, ApplyState::Failed, e) == (ApplyState::Failed, ApplyActionV::Done),
{
}

/// A rename that fails because it crosses filesystems turns into a copy.
pub proof fn lemma_cross_device_copies(es: Seq<EntryV>, i: usize, error: Seq<char>)
    ensures
        apply_step_spec(
            es,
            ApplyState::Renaming(i),
            ApplyEventV::RenameFailed { crosses_devices: true, error },
        ) == (ApplyState::Copying(i), ApplyActionV::CopyThenRemove(i)),
{
}

// ---------------------------------------------------------------------------
// Laws of the copy
// ---------------------------------------------------------------------------
/// The state and actions after feeding `events` to the copy from state `s`.
pub open spec fn copy_run(s: CopyStateV, events: Seq<CopyEventV>) -> (CopyStateV, Seq<CopyActionV>)
    decreases events.len(),
{
    if events.len() == 0 {
        (s, Seq::empty())
    } else {
        let prev = copy_run(s, events.drop_last());
        let next = copy_step_spec(prev.0, events.last());
        (next.0, prev.1.push(next.1))
    }
}

/// The move ends, and in failure.
pub open spec fn ends_in_failure(a: CopyActionV) -> bool {
    a matches CopyActionV::Finish(Err(_))
}

/// A copy whose byte count differs from the source's size fails with both
/// numbers, and the partial file is removed.
pub proof fn lemma_short_copy_fails(copied: u64, expected: u64)
    requires
        copied != expected,
    ensures
        copy_step_spec(CopyStateV::Sizing(copied), CopyEventV::Sized(Ok(expected))) == clean(
            seq![size_text(copied, expected)],
        ),
{
}

/// The source is removed only right after the partial file was renamed into
/// place.
pub proof fn lemma_source_removed_after_move(s: CopyStateV, e: CopyEventV)
    requires
        copy_step_spec(s, e).1 == CopyActionV::RemoveSource,
    ensures
        s == CopyStateV::Moving,
        e == CopyEventV::Moved(Ok(())),
{
    if let CopyEventV::Moved(r) = e {
        if let Ok(u) = r {
            assert(u == ());
        }
    }
}

/// However the filesystem answers: the source is removed only in answer to
/// the partial file's rename into place succeeding, and every move that ends
/// in failure removes the partial file just before.
pub proof fn lemma_copy_cleans_up(events: Seq<CopyEventV>)
    ensures
        ({
            let acts = copy_run(CopyStateV::Idle, events).1;
            &&& acts.len() == events.len()
            &&& forall|k: int|
                #![trigger acts[k]]
                0 <= k < acts.len() && acts[k] == CopyActionV::RemoveSource ==> events[k]
                    == CopyEventV::Moved(Ok(()))
            &&& forall|k: int|
                #![trigger acts[k]]
                0 <= k < acts.len() && ends_in_failure(acts[k]) ==> k > 0
                    && acts[k - 1] == CopyActionV::RemovePartial
        }),
    decreases events.len(),
{
    let (s, acts) = copy_run(CopyStateV::Idle, events);
    if events.len() > 0 {
        let prior = events.drop_last();
        lemma_copy_cleans_up(prior);
        lemma_cleaning_follows_removal(prior);
        let (s1, acts1) = copy_run(CopyStateV::Idle, prior);
        let n = acts1.len() as int;
        assert forall|k: int|
            #![trigger acts[k]]
            0 <= k < acts.len() && acts[k] == CopyActionV::RemoveSource implies events[k]
                == CopyEventV::Moved(Ok(())) by {
            if k < n {
                assert(acts[k] == acts1[k]);
                assert(events[k] == prior[k]);
            } else {
                lemma_source_removed_after_move(s1, events.last());
            }
        }
        assert forall|k: int|
            #![trigger acts[k]]
            0 <= k < acts.len() && ends_in_failure(acts[k]) implies k > 0
                && acts[k - 1] == CopyActionV::RemovePartial by {
            if k < n {
                assert(acts[k] == acts1[k]);
                assert(acts[k - 1] == acts1[k - 1]);
            } else {
                assert(acts[k - 1] == acts1[n - 1]);
            }
        }
    }
}

/// While a failure waits for the partial file's removal, that removal was
/// the last action asked for.
proof fn lemma_cleaning_follows_removal(events: Seq<CopyEventV>)
    ensures
        copy_run(CopyStateV::Idle, events).0 is Cleaning ==> copy_run(CopyStateV::Idle, events).1.len()
            > 0 && copy_run(CopyStateV::Idle, events).1.last() == CopyActionV::RemovePartial,
    decreases events.len(),
{
    if events.len() > 0 {
        lemma_cleaning_follows_removal(events.drop_last());
    }
}

} // verus!
