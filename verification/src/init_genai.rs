//! Decisions of `init-genai`, which drops AI-author instruction templates
//! into a project: whether each template file is written, and the tally of
//! what happened.
use vstd::prelude::*;

verus! {

/// What happened to one template file (its path).
#[derive(Debug, PartialEq, Eq)]
pub enum Outcome {
    Created(String),
    Overwritten(String),
    Skipped(String),
}

/// What to do with one template file.
#[derive(Debug, Clone, Copy, PartialEq, Eq, Structural)]
pub enum TemplateAction {
    /// Leave the existing file alone.
    Skip,
    /// Write the file; `overwrite` says whether one was there.
    Write { overwrite: bool },
}

/// An existing file is skipped unless `force` is set; otherwise the
/// template is written, over the existing file if there is one.
pub fn plan_template(exists: bool, force: bool) -> (r: TemplateAction)
    ensures
        r == (if exists && !force {
            TemplateAction::Skip
        } else {
            TemplateAction::Write { overwrite: exists }
        }),
{
    if exists && !force {
        TemplateAction::Skip
    } else {
        TemplateAction::Write { overwrite: exists }
    }
}

/// The report entry for a template at `dest` once `action` is carried out.
pub fn outcome_of(dest: String, action: TemplateAction) -> (r: Outcome)
    ensures
        r == (match action {
            TemplateAction::Skip => Outcome::Skipped(dest),
            TemplateAction::Write { overwrite } => if overwrite {
                Outcome::Overwritten(dest)
            } else {
                Outcome::Created(dest)
            },
        }),
{
    match action {
        TemplateAction::Skip => Outcome::Skipped(dest),
        TemplateAction::Write { overwrite } => if overwrite {
            Outcome::Overwritten(dest)
        } else {
            Outcome::Created(dest)
        },
    }
}

/// How many entries of `report` are created, overwritten and skipped.
pub open spec fn tally(report: Seq<Outcome>) -> (nat, nat, nat)
    decreases report.len(),
{
    if report.len() == 0 {
        (0, 0, 0)
    } else {
        let t = tally(report.drop_last());
        match report.last() {
            Outcome::Created(_) => ((t.0 + 1) as nat, t.1, t.2),
            Outcome::Overwritten(_) => (t.0, (t.1 + 1) as nat, t.2),
            Outcome::Skipped(_) => (t.0, t.1, (t.2 + 1) as nat),
        }
    }
}

/// The counts shown at the end of the report: created, overwritten and
/// skipped files (see [`tally`]); they add up to the number of entries.
pub fn report_counts(report: &[Outcome]) -> (r: (usize, usize, usize))
    ensures
        (r.0 as nat, r.1 as nat, r.2 as nat) == tally(report@),
        r.0 + r.1 + r.2 == report@.len(),
{
    let mut created: usize = 0;
    let mut overwritten: usize = 0;
    let mut skipped: usize = 0;
    let mut i: usize = 0;
    while i < report.len()
        invariant
            i <= report@.len(),
            (created as nat, overwritten as nat, skipped as nat) == tally(report@.take(i as int)),
            created + overwritten + skipped == i,
        decreases report.len() - i,
    {
        assert(report@.take(i + 1).drop_last() =~= report@.take(i as int));
        match &report[i] {
            Outcome::Created(_) => created = created + 1,
            Outcome::Overwritten(_) => overwritten = overwritten + 1,
            Outcome::Skipped(_) => skipped = skipped + 1,
        }
        i = i + 1;
    }
    assert(report@.take(report@.len() as int) =~= report@);
    (created, overwritten, skipped)
}

/// Whether the report ends with the hint to re-run with `--force`: some
/// file was skipped and `force` was not set.
pub fn needs_force_hint(skipped: usize, force: bool) -> (r: bool)
    ensures
        r == (skipped > 0 && !force),
{
    skipped > 0 && !force
}

} // verus!
