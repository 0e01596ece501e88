//! Reports: what is told of each file once a plan was previewed or
//! applied.
//!
//! Renaming files on disk is the caller's part. For each entry of a plan
//! that gives a new name the caller renames the file and hands back what
//! the file system said; the report entry records it as it stands. A file
//! that could not be renamed never keeps the others from being renamed.

use vstd::prelude::*;
use vstd::string::StringExecFns;
use crate::error::ErrorKind;
use crate::planner::{plan_entry_views, PlanEntry, PlanEntryView};

verus! {

/// What is told of one file, as a mathematical value.
pub enum ReportEntryView {
    /// The file would be renamed.
    Planned { original: Seq<char>, renamed: Seq<char> },
    /// The file was renamed.
    Renamed { original: Seq<char>, renamed: Seq<char> },
    /// The file was not renamed.
    Failed { original: Seq<char>, reason: ErrorKind, detail: Seq<char> },
}

/// What is told of one file.
#[derive(Clone, Debug, PartialEq, Eq)]
pub enum ReportEntry {
    /// The file `original` would be renamed to `renamed`; nothing was done.
    Planned { original: String, renamed: String },
    /// The file `original` was renamed to `renamed`.
    Renamed { original: String, renamed: String },
    /// The file `original` was not renamed. `detail` holds what the file
    /// system said where it refused the rename, and is empty otherwise.
    Failed { original: String, reason: ErrorKind, detail: String },
}

impl View for ReportEntry {
    type V = ReportEntryView;

    open spec fn view(&self) -> ReportEntryView {
        match self {
            ReportEntry::Planned { original, renamed } => ReportEntryView::Planned {
                original: original@,
                renamed: renamed@,
            },
            ReportEntry::Renamed { original, renamed } => ReportEntryView::Renamed {
                original: original@,
                renamed: renamed@,
            },
            ReportEntry::Failed { original, reason, detail } => ReportEntryView::Failed {
                original: original@,
                reason: *reason,
                detail: detail@,
            },
        }
    }
}

/// The views of a sequence of report entries, in the same order.
pub open spec fn report_entry_views(entries: Seq<ReportEntry>) -> Seq<ReportEntryView> {
    entries.map_values(|entry: ReportEntry| entry@)
}

/// What the file system said to one rename, as a mathematical value: `Ok`
/// where it renamed the file, else its message.
pub open spec fn outcome_view(outcome: Result<(), String>) -> Result<(), Seq<char>> {
    match outcome {
        Ok(_) => Ok(()),
        Err(message) => Err(message@),
    }
}

/// What a preview tells of a plan entry.
pub open spec fn previewed_spec(entry: PlanEntryView) -> ReportEntryView {
    match entry {
        PlanEntryView::Renamed { original, renamed } => ReportEntryView::Planned {
            original,
            renamed,
        },
        PlanEntryView::Failed { original, reason } => ReportEntryView::Failed {
            original,
            reason,
            detail: Seq::empty(),
        },
    }
}

/// What is told of a plan entry once the plan was applied, given what the
/// file system said to the rename of its file. For an entry without a new
/// name no rename is asked for, and the outcome does not count.
pub open spec fn applied_spec(
    entry: PlanEntryView,
    outcome: Result<(), Seq<char>>,
) -> ReportEntryView {
    match entry {
        PlanEntryView::Renamed { original, renamed } => match outcome {
            Ok(_) => ReportEntryView::Renamed { original, renamed },
            Err(message) => ReportEntryView::Failed {
                original,
                reason: ErrorKind::RenameIOFailure,
                detail: message,
            },
        },
        PlanEntryView::Failed { original, reason } => ReportEntryView::Failed {
            original,
            reason,
            detail: Seq::empty(),
        },
    }
}

/// The line of text that tells of one file.
pub open spec fn line_spec(entry: ReportEntryView) -> Seq<char> {
    match entry {
        ReportEntryView::Planned { original, renamed } => original + "  ➜  "@ + renamed,
        ReportEntryView::Renamed { original, renamed } => "RENAMED: "@ + original + " > "@
            + renamed,
        ReportEntryView::Failed { original, reason, detail } => if reason
            == ErrorKind::RenameIOFailure {
            "ERROR: "@ + original + ": "@ + detail
        } else {
            "Unable to rename "@ + original
        },
    }
}

/// What a preview tells of `entry`: the new name that it would get, or why
/// it has none.
pub fn previewed(entry: &PlanEntry) -> (told: ReportEntry)
    ensures
        told@ == previewed_spec(entry@),
{
    match entry {
        PlanEntry::Renamed { original, renamed } => ReportEntry::Planned {
            original: original.clone(),
            renamed: renamed.clone(),
        },
        PlanEntry::Failed { original, reason } => ReportEntry::Failed {
            original: original.clone(),
            reason: *reason,
            detail: String::new(),
        },
    }
}

/// What is told of `entry` once the caller tried to rename its file and
/// the file system answered with `outcome`: `Ok` where it renamed the
/// file, else its message, which is kept as it is.
///
/// For an entry without a new name there is nothing to rename: its reason
/// is told, whatever `outcome` holds.
pub fn applied(entry: &PlanEntry, outcome: Result<(), String>) -> (told: ReportEntry)
    ensures
        told@ == applied_spec(entry@, outcome_view(outcome)),
{
    match entry {
        PlanEntry::Renamed { original, renamed } => match outcome {
            Ok(_) => ReportEntry::Renamed { original: original.clone(), renamed: renamed.clone() },
            Err(message) => ReportEntry::Failed {
                original: original.clone(),
                reason: ErrorKind::RenameIOFailure,
                detail: message,
            },
        },
        PlanEntry::Failed { original, reason } => ReportEntry::Failed {
            original: original.clone(),
            reason: *reason,
            detail: String::new(),
        },
    }
}

/// The preview of a plan: what would become of each file, in the order of
/// the plan. Nothing is renamed.
pub fn dry_run(plan: &Vec<PlanEntry>) -> (report: Vec<ReportEntry>)
    ensures
        report.len() == plan.len(),
        forall|i: int|
            0 <= i < plan.len() ==> (#[trigger] report[i])@ == previewed_spec(plan[i]@),
{
    let mut report: Vec<ReportEntry> = Vec::new();
    let mut i: usize = 0;
    while i < plan.len()
        invariant
            i <= plan.len(),
            report.len() == i,
            forall|j: int| 0 <= j < i ==> (#[trigger] report[j])@ == previewed_spec(plan[j]@),
        decreases plan.len() - i,
    {
        report.push(previewed(&plan[i]));
        i = i + 1;
    }
    report
}

impl ReportEntry {
    /// The line of text that tells of the file.
    pub fn line(&self) -> (text: String)
        ensures
            text@ == line_spec(self@),
    {
        match self {
            ReportEntry::Planned { original, renamed } => {
                let mut text = original.clone();
                text.append("  ➜  ");
                text.append(renamed.as_str());
                text
            },
            ReportEntry::Renamed { original, renamed } => {
                let mut text = "RENAMED: ".to_owned();
                text.append(original.as_str());
                text.append(" > ");
                text.append(renamed.as_str());
                text
            },
            ReportEntry::Failed { original, reason, detail } => {
                if *reason == ErrorKind::RenameIOFailure {
                    let mut text = "ERROR: ".to_owned();
                    text.append(original.as_str());
                    text.append(": ");
                    text.append(detail.as_str());
                    text
                } else {
                    let mut text = "Unable to rename ".to_owned();
                    text.append(original.as_str());
                    text
                }
            },
        }
    }
}

} // verus!
