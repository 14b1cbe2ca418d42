//! Cull recipes: the two-step harvest.
//!
//! Step one turns a culling session into a `Recipe` — a plain list of every
//! edit the tool intends to make, each carrying the evidence behind it (which
//! burst, what rank, what sharpness, how confident the tracker was). Nothing
//! is written. The user reads that back and confirms the automated steps
//! detected what was intended.
//!
//! Step two executes it. `check` reports problems without touching anything;
//! for each action `plan` says what is to be done and `record` what came of
//! it. In a dry run the report says what would be done.

use vstd::prelude::*;
use crate::output;
use crate::path;
use crate::single::Real32;
use crate::text;

verus! {

/// Bumped when the on-disk shape changes incompatibly.
pub const RECIPE_VERSION: u32 = 1;

#[derive(Debug)]
pub struct Recipe {
    pub version: u32,
    /// Folder the paths in `actions` are relative to.
    pub folder: String,
    pub created_unix: u64,
    pub settings: Settings,
    pub actions: Vec<PlannedAction>,
}

#[derive(Debug)]
pub struct Settings {
    /// How many frames per burst were kept.
    pub top_n: usize,
    /// Burst grouping gap, to the nearest second.
    pub gap_secs: u64,
    pub write_xmp: bool,
    pub copy_to: Option<String>,
}

/// What to do with one file.
#[derive(Debug)]
pub enum Op {
    /// Write an XMP sidecar next to the original.
    WriteXmp { rating: u8 },
    /// Copy the file (and any existing sidecar) into `dest`; with `rating`
    /// above 0 an XMP sidecar is written next to the copy, never next to the
    /// original.
    Copy { dest: String, rating: u8 },
    /// Deliberately left alone. Present so the review shows what is being
    /// dropped, not only what is acted on.
    Skip,
}

#[derive(Debug)]
pub struct PlannedAction {
    /// Relative to `Recipe::folder`.
    pub file: String,
    pub op: Op,
    /// Cleared in review to drop a single action without rebuilding.
    pub enabled: bool,
    // ---- evidence: why the tool chose this ----
    /// 1-based burst number, matching what the UI displayed.
    pub burst: usize,
    pub burst_size: usize,
    /// 1-based rank within the burst under the ranking that was in effect.
    pub rank: usize,
    pub sharpness: Real32,
    /// Sharpness at the tracked point, when a track was running.
    pub roi_sharpness: Option<Real32>,
    /// Tracker confidence at this frame, when a track was running.
    pub track_confidence: Option<Real32>,
    /// Plain-language justification, shown in the review table.
    pub reason: String,
}

impl PlannedAction {
    /// Whether the action would actually run.
    pub open spec fn runs(self) -> bool {
        self.enabled && !(self.op is Skip)
    }

    /// Whether the action would actually run.
    pub fn is_active(&self) -> (r: bool)
        ensures
            r == self.runs(),
    {
        match &self.op {
            Op::Skip => false,
            _ => self.enabled,
        }
    }

    /// What the review table says the action does.
    pub fn op_label(&self) -> (r: String)
        ensures
            r@ == op_text(self.op),
    {
        match &self.op {
            Op::WriteXmp { rating } => {
                let mut s = text::copy_of("rate ");
                text::push_decimal(&mut s, *rating as u64);
                s.append("★");
                s
            },
            Op::Copy { dest, rating } => {
                let mut s = text::copy_of("copy to ");
                s.append(dest.as_str());
                if *rating > 0 {
                    s.append(" + rate ");
                    text::push_decimal(&mut s, *rating as u64);
                    s.append("★");
                }
                s
            },
            Op::Skip => text::copy_of("skip"),
        }
    }

    /// Absolute source path within `folder`.
    pub fn source(&self, folder: &str) -> (r: String)
        ensures
            path::joinable(folder@, self.file@) ==> path::is_joined(folder@, self.file@, r@),
    {
        path::join(folder, self.file.as_str())
    }
}

/// What the review table says an operation does.
pub open spec fn op_text(op: Op) -> Seq<char> {
    match op {
        Op::WriteXmp { rating } => "rate "@ + text::decimal(rating as int) + "★"@,
        Op::Copy { dest, rating } => if rating > 0 {
            "copy to "@ + dest@ + " + rate "@ + text::decimal(rating as int) + "★"@
        } else {
            "copy to "@ + dest@
        },
        Op::Skip => "skip"@,
    }
}

/// Indices below `k` of the actions that would run.
pub open spec fn active_below(actions: Seq<PlannedAction>, k: int) -> Seq<int>
    decreases k,
{
    if k <= 0 {
        Seq::empty()
    } else if actions[k - 1].runs() {
        active_below(actions, k - 1).push(k - 1)
    } else {
        active_below(actions, k - 1)
    }
}

impl Recipe {
    /// Indices of the actions that would actually run.
    pub fn active(&self) -> (r: Vec<usize>)
        ensures
            r@.map_values(|x: usize| x as int) == active_below(
                self.actions@,
                self.actions@.len() as int,
            ),
    {
        let mut out: Vec<usize> = Vec::new();
        let mut i: usize = 0;
        assert(out@.map_values(|x: usize| x as int) =~= Seq::<int>::empty());
        while i < self.actions.len()
            invariant
                i <= self.actions@.len(),
                out@.map_values(|x: usize| x as int) == active_below(self.actions@, i as int),
            decreases self.actions@.len() - i,
        {
            let ghost before = out@;
            if self.actions[i].is_active() {
                out.push(i);
                assert(out@.map_values(|x: usize| x as int) =~= before.map_values(
                    |x: usize| x as int,
                ).push(i as int));
            }
            i += 1;
        }
        out
    }

    /// How many actions would actually run.
    pub fn active_count(&self) -> (r: usize)
        ensures
            r == active_below(self.actions@, self.actions@.len() as int).len(),
    {
        let a = self.active();
        assert(a@.map_values(|x: usize| x as int).len() == a@.len());
        a.len()
    }
}

/// A problem found by `check`, keyed to the action's index in
/// `Recipe::actions`.
#[derive(Debug)]
pub struct Issue {
    pub action: usize,
    pub severity: Severity,
    pub message: String,
}

#[derive(Debug, Clone, Copy, PartialEq, Eq, Structural)]
pub enum Severity {
    /// Will not run, or will lose data.
    Error,
    /// Will run, but the user should know.
    Warning,
}

/// The value of an `Issue`.
#[verifier::ext_equal]
pub struct IssueView {
    pub action: int,
    pub severity: Severity,
    pub message: Seq<char>,
}

impl View for Issue {
    type V = IssueView;

    open spec fn view(&self) -> IssueView {
        IssueView { action: self.action as int, severity: self.severity, message: self.message@ }
    }
}

/// The values of a list of issues.
pub open spec fn issue_views(s: Seq<Issue>) -> Seq<IssueView> {
    Seq::new(s.len(), |i: int| s[i]@)
}

/// What the file system says about one action.
#[derive(Debug)]
pub struct Facts {
    pub source_exists: bool,
    /// The source has a sidecar.
    pub sidecar_exists: bool,
    /// The destination of a copy exists.
    pub dest_exists: bool,
    pub dest_is_dir: bool,
    /// Path of a copy in the destination.
    pub target: String,
    pub target_exists: bool,
}

/// Whether action `i` is a copy that gets as far as its target.
pub open spec fn copies(actions: Seq<PlannedAction>, facts: Seq<Facts>, i: int) -> bool {
    &&& actions[i].enabled
    &&& actions[i].op is Copy
    &&& facts[i].source_exists
    &&& !(facts[i].dest_exists && !facts[i].dest_is_dir)
}

/// Pairs of actions with the same target.
pub type Shared = Set<(int, int)>;

/// Whether `shared` can be what a platform says of the targets of two copies,
/// the earlier one first, being the same path.
pub open spec fn may_share(actions: Seq<PlannedAction>, facts: Seq<Facts>, shared: Shared) -> bool {
    forall|j: int, i: int|
        0 <= j < i < actions.len() && copies(actions, facts, j) && copies(actions, facts, i)
            ==> path::may_be_same(
            facts[j].target@,
            facts[i].target@,
            #[trigger] shared.contains((j, i)),
        )
}

/// The last of the first `j` actions that copies to the target of action `i`.
pub open spec fn same_target(
    actions: Seq<PlannedAction>,
    facts: Seq<Facts>,
    shared: Shared,
    i: int,
    j: int,
) -> Option<int>
    decreases j,
{
    if j <= 0 {
        None
    } else if copies(actions, facts, j - 1) && shared.contains((j - 1, i)) {
        Some(j - 1)
    } else {
        same_target(actions, facts, shared, i, j - 1)
    }
}

pub open spec fn error(i: int, message: Seq<char>) -> Seq<IssueView> {
    seq![IssueView { action: i, severity: Severity::Error, message }]
}

pub open spec fn warning(i: int, message: Seq<char>) -> Seq<IssueView> {
    seq![IssueView { action: i, severity: Severity::Warning, message }]
}

/// The problems of action `i`.
pub open spec fn issues_of(
    actions: Seq<PlannedAction>,
    facts: Seq<Facts>,
    shared: Shared,
    i: int,
) -> Seq<IssueView> {
    let f = facts[i];
    if !actions[i].runs() {
        Seq::empty()
    } else if !f.source_exists {
        error(i, "source missing"@)
    } else {
        match actions[i].op {
            Op::WriteXmp { .. } => if f.sidecar_exists {
                warning(i, "overwrites existing sidecar"@)
            } else {
                Seq::empty()
            },
            Op::Copy { dest, .. } => if f.dest_exists && !f.dest_is_dir {
                error(i, "destination is not a folder: "@ + dest@)
            } else {
                let taken = if f.target_exists {
                    warning(i, "name already in destination; copy will be suffixed"@)
                } else {
                    Seq::empty()
                };
                let twice = match same_target(actions, facts, shared, i, i) {
                    Some(j) => warning(
                        i,
                        "same destination name as action "@ + text::decimal(j + 1)
                            + "; copy will be suffixed"@,
                    ),
                    None => Seq::empty(),
                };
                taken + twice
            },
            Op::Skip => Seq::empty(),
        }
    }
}

/// The problems of the first `k` actions.
pub open spec fn issues_below(
    actions: Seq<PlannedAction>,
    facts: Seq<Facts>,
    shared: Shared,
    k: int,
) -> Seq<IssueView>
    decreases k,
{
    if k <= 0 {
        Seq::empty()
    } else {
        issues_below(actions, facts, shared, k - 1) + issues_of(actions, facts, shared, k - 1)
    }
}

/// Whether action `i` is a copy that gets as far as its target.
fn is_copy(actions: &Vec<PlannedAction>, facts: &Vec<Facts>, i: usize) -> (r: bool)
    requires
        i < actions@.len(),
        facts@.len() == actions@.len(),
    ensures
        r == copies(actions@, facts@, i as int),
{
    let is_copy = match &actions[i].op {
        Op::Copy { .. } => actions[i].enabled,
        _ => false,
    };
    is_copy && facts[i].source_exists && !(facts[i].dest_exists && !facts[i].dest_is_dir)
}

/// Whether `shared` speaks of the copies before `i` as a platform may.
spec fn shared_with(
    actions: Seq<PlannedAction>,
    facts: Seq<Facts>,
    shared: Shared,
    i: int,
    n: int,
) -> bool {
    forall|j: int|
        0 <= j < n && copies(actions, facts, j) ==> path::may_be_same(
            facts[j].target@,
            facts[i].target@,
            #[trigger] shared.contains((j, i)),
        )
}

/// The last action before the copy `i` that copies to its target, and which of
/// those before it do.
fn find_same_target(actions: &Vec<PlannedAction>, facts: &Vec<Facts>, i: usize) -> (r: (
    Option<usize>,
    Ghost<Shared>,
))
    requires
        i < actions@.len(),
        facts@.len() == actions@.len(),
    ensures
        shared_with(actions@, facts@, r.1@, i as int, i as int),
        forall|p: (int, int)| #[trigger] r.1@.contains(p) ==> p.1 == i,
        r.0 is Some <==> same_target(actions@, facts@, r.1@, i as int, i as int) is Some,
        r.0 is Some ==> r.0->0 == same_target(actions@, facts@, r.1@, i as int, i as int)->0
            && r.0->0 < i,
{
    let mut last: Option<usize> = None;
    let ghost mut shared: Shared = Set::empty();
    let mut j: usize = 0;
    while j < i
        invariant
            j <= i,
            i < actions@.len(),
            facts@.len() == actions@.len(),
            shared_with(actions@, facts@, shared, i as int, j as int),
            forall|p: (int, int)| #[trigger] shared.contains(p) ==> p.1 == i && p.0 < j,
            last is Some <==> same_target(actions@, facts@, shared, i as int, j as int) is Some,
            last is Some ==> last->0 == same_target(
                actions@,
                facts@,
                shared,
                i as int,
                j as int,
            )->0 && last->0 < j,
        decreases i - j,
    {
        let ghost before = shared;
        if is_copy(actions, facts, j) && path::same_path(
            facts[j].target.as_str(),
            facts[i].target.as_str(),
        ) {
            last = Some(j);
            proof {
                shared = shared.insert((j as int, i as int));
            }
        }
        proof {
            lemma_same_target(actions@, facts@, before, shared, i as int, j as int);
            assert forall|k: int|
                0 <= k < j + 1 && copies(actions@, facts@, k) implies path::may_be_same(
                facts@[k].target@,
                facts@[i as int].target@,
                #[trigger] shared.contains((k, i as int)),
            ) by {
                if k < j {
                    assert(shared.contains((k, i as int)) == before.contains((k, i as int)));
                } else {
                    assert(!before.contains((k, i as int)));
                }
            }
            assert(!before.contains((j as int, i as int)));
        }
        j += 1;
    }
    (last, Ghost(shared))
}

/// Which target is shared depends only on what is said of the actions so far.
proof fn lemma_same_target(
    actions: Seq<PlannedAction>,
    facts: Seq<Facts>,
    s1: Shared,
    s2: Shared,
    i: int,
    j: int,
)
    requires
        forall|k: int| 0 <= k < j ==> s1.contains((k, i)) == #[trigger] s2.contains((k, i)),
    ensures
        same_target(actions, facts, s1, i, j) == same_target(actions, facts, s2, i, j),
    decreases j,
{
    if j > 0 {
        lemma_same_target(actions, facts, s1, s2, i, j - 1);
        assert(s1.contains((j - 1, i)) == s2.contains((j - 1, i)));
    }
}

/// The problems so far depend only on what is said of the actions so far.
proof fn lemma_same_issues(
    actions: Seq<PlannedAction>,
    facts: Seq<Facts>,
    s1: Shared,
    s2: Shared,
    k: int,
)
    requires
        0 <= k,
        forall|p: (int, int)| p.1 < k ==> s1.contains(p) == #[trigger] s2.contains(p),
    ensures
        issues_below(actions, facts, s1, k) == issues_below(actions, facts, s2, k),
    decreases k,
{
    if k > 0 {
        lemma_same_issues(actions, facts, s1, s2, k - 1);
        lemma_same_target(actions, facts, s1, s2, k - 1, k - 1);
    }
}

fn push_issue(out: &mut Vec<Issue>, action: usize, severity: Severity, message: String)
    ensures
        issue_views(final(out)@) == issue_views(old(out)@) + seq![
            IssueView { action: action as int, severity, message: message@ },
        ],
{
    let ghost before = issue_views(out@);
    out.push(Issue { action, severity, message });
    assert(issue_views(out@) =~= before + seq![
        IssueView { action: action as int, severity, message: message@ },
    ]);
}

/// Adds the problems of action `i`.
fn check_action(
    actions: &Vec<PlannedAction>,
    facts: &Vec<Facts>,
    i: usize,
    out: &mut Vec<Issue>,
) -> (r: Ghost<Shared>)
    requires
        i < actions@.len(),
        facts@.len() == actions@.len(),
    ensures
        copies(actions@, facts@, i as int) ==> shared_with(
            actions@,
            facts@,
            r@,
            i as int,
            i as int,
        ),
        forall|p: (int, int)| #[trigger] r@.contains(p) ==> p.1 == i,
        issue_views(final(out)@) == issue_views(old(out)@) + issues_of(
            actions@,
            facts@,
            r@,
            i as int,
        ),
{
    let ghost none: Shared = Set::empty();
    let ghost before = issue_views(out@);
    let a = &actions[i];
    let f = &facts[i];
    if !a.is_active() {
        assert(before + Seq::<IssueView>::empty() =~= before);
        return Ghost(none);
    }
    if !f.source_exists {
        push_issue(out, i, Severity::Error, text::copy_of("source missing"));
        return Ghost(none);
    }
    match &a.op {
        Op::WriteXmp { .. } => {
            if f.sidecar_exists {
                push_issue(
                    out,
                    i,
                    Severity::Warning,
                    text::copy_of("overwrites existing sidecar"),
                );
            } else {
                assert(before + Seq::<IssueView>::empty() =~= before);
            }
        },
        Op::Copy { dest, .. } => {
            if f.dest_exists && !f.dest_is_dir {
                push_issue(
                    out,
                    i,
                    Severity::Error,
                    text::joined("destination is not a folder: ", dest.as_str()),
                );
                return Ghost(none);
            }
            let ghost mut taken = Seq::<IssueView>::empty();
            if f.target_exists {
                push_issue(
                    out,
                    i,
                    Severity::Warning,
                    text::copy_of("name already in destination; copy will be suffixed"),
                );
                proof {
                    taken = warning(
                        i as int,
                        "name already in destination; copy will be suffixed"@,
                    );
                }
            }
            assert(issue_views(out@) =~= before + taken);
            let (found, shared) = find_same_target(actions, facts, i);
            if let Some(j) = found {
                let mut s = text::copy_of("same destination name as action ");
                text::push_decimal(&mut s, j as u64 + 1);
                s.append("; copy will be suffixed");
                push_issue(out, i, Severity::Warning, s);
            }
            assert(issue_views(out@) =~= before + issues_of(actions@, facts@, shared@, i as int));
            return shared;
        },
        Op::Skip => {},
    }
    Ghost(none)
}

/// Precondition pass over what the file system says about each action; the
/// review table shows the result so problems are visible *before* the execute
/// step.
pub fn check(recipe: &Recipe, facts: &Vec<Facts>) -> (r: Vec<Issue>)
    requires
        facts@.len() == recipe.actions@.len(),
    ensures
        exists|shared: Shared| #[trigger]
            may_share(recipe.actions@, facts@, shared) && issue_views(r@) == issues_below(
                recipe.actions@,
                facts@,
                shared,
                recipe.actions@.len() as int,
            ),
{
    let ghost mut shared: Shared = Set::empty();
    let mut issues: Vec<Issue> = Vec::new();
    let mut i: usize = 0;
    assert(issue_views(issues@) =~= Seq::<IssueView>::empty());
    while i < recipe.actions.len()
        invariant
            i <= recipe.actions@.len(),
            facts@.len() == recipe.actions@.len(),
            forall|p: (int, int)| #[trigger] shared.contains(p) ==> p.1 < i,
            forall|j: int, k: int|
                0 <= j < k < i && copies(recipe.actions@, facts@, j) && copies(
                    recipe.actions@,
                    facts@,
                    k,
                ) ==> path::may_be_same(
                    facts@[j].target@,
                    facts@[k].target@,
                    #[trigger] shared.contains((j, k)),
                ),
            issue_views(issues@) == issues_below(recipe.actions@, facts@, shared, i as int),
        decreases recipe.actions@.len() - i,
    {
        let more = check_action(&recipe.actions, facts, i, &mut issues);
        proof {
            let before = shared;
            shared = before.union(more@);
            lemma_same_issues(recipe.actions@, facts@, before, shared, i as int);
            lemma_same_target(recipe.actions@, facts@, more@, shared, i as int, i as int);
            assert forall|j: int, k: int|
                0 <= j < k < i + 1 && copies(recipe.actions@, facts@, j) && copies(
                    recipe.actions@,
                    facts@,
                    k,
                ) implies path::may_be_same(
                facts@[j].target@,
                facts@[k].target@,
                #[trigger] shared.contains((j, k)),
            ) by {
                if k < i {
                    assert(shared.contains((j, k)) == before.contains((j, k)));
                } else {
                    assert(shared.contains((j, k)) == more@.contains((j, k)));
                }
            }
        }
        i += 1;
    }
    assert(may_share(recipe.actions@, facts@, shared));
    issues
}

/// What became of one action.
#[derive(Debug)]
pub struct Outcome {
    pub action: usize,
    pub file: String,
    /// What happened, or what would happen under `dry_run`.
    pub detail: String,
    pub error: Option<String>,
}

/// The value of an `Outcome`.
#[verifier::ext_equal]
pub struct OutcomeView {
    pub action: int,
    pub file: Seq<char>,
    pub detail: Seq<char>,
    pub error: Option<Seq<char>>,
}

impl View for Outcome {
    type V = OutcomeView;

    open spec fn view(&self) -> OutcomeView {
        OutcomeView {
            action: self.action as int,
            file: self.file@,
            detail: self.detail@,
            error: path::opt_view(self.error),
        }
    }
}

/// The values of a list of outcomes.
pub open spec fn outcome_views(s: Seq<Outcome>) -> Seq<OutcomeView> {
    Seq::new(s.len(), |i: int| s[i]@)
}

#[derive(Debug)]
pub struct Report {
    pub dry_run: bool,
    pub sidecars: usize,
    pub copied: usize,
    pub skipped: usize,
    pub outcomes: Vec<Outcome>,
}

/// The value of a `Report`.
#[verifier::ext_equal]
pub struct ReportView {
    pub dry_run: bool,
    pub sidecars: int,
    pub copied: int,
    pub skipped: int,
    pub outcomes: Seq<OutcomeView>,
}

impl View for Report {
    type V = ReportView;

    open spec fn view(&self) -> ReportView {
        ReportView {
            dry_run: self.dry_run,
            sidecars: self.sidecars as int,
            copied: self.copied as int,
            skipped: self.skipped as int,
            outcomes: outcome_views(self.outcomes@),
        }
    }
}

/// A report of nothing yet.
pub open spec fn blank_report(dry_run: bool) -> ReportView {
    ReportView { dry_run, sidecars: 0, copied: 0, skipped: 0, outcomes: Seq::empty() }
}

/// Indices below `k` of the outcomes with an error.
pub open spec fn failed_below(s: Seq<OutcomeView>, k: int) -> Seq<int>
    decreases k,
{
    if k <= 0 {
        Seq::empty()
    } else if s[k - 1].error is Some {
        failed_below(s, k - 1).push(k - 1)
    } else {
        failed_below(s, k - 1)
    }
}

/// One line that says what was done.
pub open spec fn summary_text(r: ReportView) -> Seq<char> {
    let failed = failed_below(r.outcomes, r.outcomes.len() as int).len() as int;
    (if r.dry_run {
        "would write"@
    } else {
        "wrote"@
    }) + " "@ + text::decimal(r.sidecars) + " sidecars, "@ + text::decimal(r.copied)
        + " copies ("@ + text::decimal(r.skipped) + " skipped)"@ + if failed > 0 {
        " — "@ + text::decimal(failed) + " failed"@
    } else {
        Seq::empty()
    }
}

impl Report {
    /// A report of nothing yet.
    pub fn begin(dry_run: bool) -> (r: Report)
        ensures
            r@ == blank_report(dry_run),
    {
        let outcomes: Vec<Outcome> = Vec::new();
        assert(outcome_views(outcomes@) =~= Seq::<OutcomeView>::empty());
        Report { dry_run, sidecars: 0, copied: 0, skipped: 0, outcomes }
    }

    /// Indices of the outcomes with an error.
    pub fn failures(&self) -> (r: Vec<usize>)
        ensures
            r@.map_values(|x: usize| x as int) == failed_below(
                self@.outcomes,
                self@.outcomes.len() as int,
            ),
    {
        let mut out: Vec<usize> = Vec::new();
        let mut i: usize = 0;
        assert(out@.map_values(|x: usize| x as int) =~= Seq::<int>::empty());
        while i < self.outcomes.len()
            invariant
                i <= self.outcomes@.len(),
                out@.map_values(|x: usize| x as int) == failed_below(self@.outcomes, i as int),
            decreases self.outcomes@.len() - i,
        {
            let ghost before = out@;
            if self.outcomes[i].error.is_some() {
                out.push(i);
                assert(out@.map_values(|x: usize| x as int) =~= before.map_values(
                    |x: usize| x as int,
                ).push(i as int));
            }
            i += 1;
        }
        out
    }

    /// One line that says what was done.
    pub fn summary(&self) -> (r: String)
        ensures
            r@ == summary_text(self@),
    {
        let failed = self.failures();
        assert(failed@.map_values(|x: usize| x as int).len() == failed@.len());
        let n: usize = failed.len();
        let mut s = text::copy_of(
            if self.dry_run {
                "would write"
            } else {
                "wrote"
            },
        );
        s.append(" ");
        text::push_decimal(&mut s, self.sidecars as u64);
        s.append(" sidecars, ");
        text::push_decimal(&mut s, self.copied as u64);
        s.append(" copies (");
        text::push_decimal(&mut s, self.skipped as u64);
        s.append(" skipped)");
        let ghost before = s@;
        if n > 0 {
            s.append(" — ");
            text::push_decimal(&mut s, n as u64);
            s.append(" failed");
            assert(s@ =~= before + (" — "@ + text::decimal(n as int) + " failed"@));
        } else {
            assert(s@ =~= before + Seq::<char>::empty());
        }
        s
    }
}

/// What is to be done for one action.
#[derive(Debug)]
pub enum Step {
    /// Nothing.
    Skip,
    /// Write a sidecar for `image` at `sidecar`.
    WriteXmp { image: String, sidecar: String, rating: u8 },
    /// Copy `image` into `dest`, and write a sidecar next to the copy where
    /// the rating is above 0.
    Copy { image: String, dest: String, rating: u8 },
}

/// Whether `step` is what is to be done for an action in a folder. Paths are
/// stated where they are the same on every platform but for the separator.
pub open spec fn is_step(folder: Seq<char>, a: PlannedAction, step: Step) -> bool {
    match step {
        Step::Skip => !a.runs(),
        Step::WriteXmp { image, sidecar, rating } => {
            &&& a.runs() && a.op == (Op::WriteXmp { rating })
            &&& path::joinable(folder, a.file@) ==> path::is_joined(folder, a.file@, image@)
            &&& output::is_sidecar(image@, sidecar@)
        },
        Step::Copy { image, dest, rating } => {
            &&& a.runs() && a.op is Copy && dest@ == a.op->dest@ && rating == a.op->Copy_rating
            &&& path::joinable(folder, a.file@) ==> path::is_joined(folder, a.file@, image@)
        },
    }
}

/// What is to be done for an action of a recipe in `folder`.
pub fn plan(folder: &str, a: &PlannedAction) -> (r: Step)
    ensures
        is_step(folder@, *a, r),
{
    if !a.is_active() {
        return Step::Skip;
    }
    match &a.op {
        Op::WriteXmp { rating } => {
            let image = a.source(folder);
            let sidecar = output::sidecar_path(image.as_str());
            Step::WriteXmp { image, sidecar, rating: *rating }
        },
        Op::Copy { dest, rating } => {
            let image = a.source(folder);
            Step::Copy { image, dest: text::copy_of(dest.as_str()), rating: *rating }
        },
        Op::Skip => Step::Skip,
    }
}

/// What came of a step.
#[derive(Debug)]
pub enum Done {
    /// Nothing was tried: a dry run, or a step that does nothing.
    Nothing,
    /// Writing a sidecar worked, or failed with an error.
    Sidecar(Option<String>),
    /// The copy was made at `path`; where a sidecar was to be written next to
    /// it, that worked or failed with an error.
    Copied { path: String, error: Option<String> },
    /// The copy failed.
    CopyFailed(String),
}

/// Whether `done` can come of `step`: nothing in a dry run, else what the
/// step is about.
pub open spec fn can_come_of(step: Step, dry_run: bool, done: Done) -> bool {
    match step {
        Step::Skip => true,
        Step::WriteXmp { .. } => if dry_run {
            done is Nothing
        } else {
            done is Sidecar
        },
        Step::Copy { .. } => if dry_run {
            done is Nothing
        } else {
            done is Copied || done is CopyFailed
        },
    }
}

/// Sidecars that a step is meant to write.
pub open spec fn meant_sidecars(step: Step) -> int {
    match step {
        Step::Skip => 0,
        Step::WriteXmp { .. } => 1,
        Step::Copy { rating, .. } => if rating > 0 {
            1
        } else {
            0
        },
    }
}

/// The error of a step.
pub open spec fn error_of(step: Step, done: Done) -> Option<Seq<char>> {
    match done {
        Done::Nothing => None,
        Done::Sidecar(e) => path::opt_view(e),
        Done::Copied { error, .. } => if meant_sidecars(step) > 0 {
            path::opt_view(error)
        } else {
            None
        },
        Done::CopyFailed(e) => Some(e@),
    }
}

/// What the report says of a step.
pub open spec fn detail_of(step: Step, done: Done) -> Seq<char> {
    match step {
        Step::Skip => Seq::empty(),
        Step::WriteXmp { sidecar, rating, .. } => "sidecar "@ + sidecar@ + " rating "@
            + text::decimal(rating as int),
        Step::Copy { dest, .. } => match done {
            Done::Copied { path, .. } => "copied to "@ + path@,
            _ => "copy to "@ + dest@,
        },
    }
}

/// The report after a step for action `i`, which is about `file`.
pub open spec fn recorded(
    r: ReportView,
    i: int,
    file: Seq<char>,
    step: Step,
    done: Done,
) -> ReportView {
    if step is Skip {
        ReportView { skipped: r.skipped + 1, ..r }
    } else {
        let failed = error_of(step, done) is Some;
        ReportView {
            sidecars: r.sidecars + if failed {
                0
            } else {
                meant_sidecars(step)
            },
            copied: r.copied + if step is Copy && !(done is CopyFailed) {
                1int
            } else {
                0
            },
            outcomes: r.outcomes.push(
                OutcomeView {
                    action: i,
                    file,
                    detail: detail_of(step, done),
                    error: error_of(step, done),
                },
            ),
            ..r
        }
    }
}

/// Adds to the report what came of a step for action `i`.
pub fn record(report: &mut Report, i: usize, file: &str, step: &Step, done: Done)
    requires
        can_come_of(*step, old(report).dry_run, done),
        old(report).sidecars < usize::MAX,
        old(report).copied < usize::MAX,
        old(report).skipped < usize::MAX,
    ensures
        final(report)@ == recorded(old(report)@, i as int, file@, *step, done),
{
    let ghost r0 = report@;
    let mut outcome = Outcome {
        action: i,
        file: text::copy_of(file),
        detail: String::new(),
        error: None,
    };
    match step {
        Step::Skip => {
            report.skipped = report.skipped + 1;
            return ;
        },
        Step::WriteXmp { sidecar, rating, .. } => {
            let mut s = text::copy_of("sidecar ");
            s.append(sidecar.as_str());
            s.append(" rating ");
            text::push_decimal(&mut s, *rating as u64);
            outcome.detail = s;
            let error = match done {
                Done::Sidecar(e) => e,
                _ => None,
            };
            if error.is_none() {
                report.sidecars = report.sidecars + 1;
            }
            outcome.error = error;
        },
        Step::Copy { dest, rating, .. } => {
            match done {
                Done::Copied { path, error } => {
                    outcome.detail = text::joined("copied to ", path.as_str());
                    report.copied = report.copied + 1;
                    if *rating > 0 {
                        if error.is_none() {
                            report.sidecars = report.sidecars + 1;
                        }
                        outcome.error = error;
                    }
                },
                Done::CopyFailed(e) => {
                    outcome.detail = text::joined("copy to ", dest.as_str());
                    outcome.error = Some(e);
                },
                _ => {
                    outcome.detail = text::joined("copy to ", dest.as_str());
                    report.copied = report.copied + 1;
                    if *rating > 0 {
                        report.sidecars = report.sidecars + 1;
                    }
                },
            }
        },
    }
    let ghost o = outcome@;
    report.outcomes.push(outcome);
    assert(report@.outcomes =~= r0.outcomes.push(o));
}

/// The report of running the first `k` of `actions`, given the steps and what
/// came of them.
pub open spec fn run_report(
    actions: Seq<PlannedAction>,
    steps: Seq<Step>,
    dones: Seq<Done>,
    dry_run: bool,
    k: int,
) -> ReportView
    decreases k,
{
    if k <= 0 {
        blank_report(dry_run)
    } else {
        recorded(
            run_report(actions, steps, dones, dry_run, k - 1),
            k - 1,
            actions[k - 1].file@,
            steps[k - 1],
            dones[k - 1],
        )
    }
}

/// Whether `steps` are the steps of `actions` in a folder, and `dones` can
/// come of them.
pub open spec fn is_run(
    folder: Seq<char>,
    actions: Seq<PlannedAction>,
    steps: Seq<Step>,
    dones: Seq<Done>,
    dry_run: bool,
) -> bool {
    &&& steps.len() == actions.len()
    &&& dones.len() == actions.len()
    &&& forall|i: int|
        0 <= i < actions.len() ==> is_step(folder, actions[i], #[trigger] steps[i])
            && can_come_of(steps[i], dry_run, dones[i])
}

/// A dry run foretells what a run does: where nothing fails, the two write
/// and copy the same number of files, and skip the same.
pub proof fn dry_run_foretells(
    folder: Seq<char>,
    actions: Seq<PlannedAction>,
    dry_steps: Seq<Step>,
    dry_dones: Seq<Done>,
    steps: Seq<Step>,
    dones: Seq<Done>,
    k: int,
)
    requires
        is_run(folder, actions, dry_steps, dry_dones, true),
        is_run(folder, actions, steps, dones, false),
        forall|i: int|
            0 <= i < actions.len() ==> error_of(#[trigger] steps[i], dones[i]) is None,
        0 <= k <= actions.len(),
    ensures
        ({
            let d = run_report(actions, dry_steps, dry_dones, true, k);
            let r = run_report(actions, steps, dones, false, k);
            &&& d.sidecars == r.sidecars
            &&& d.copied == r.copied
            &&& d.skipped == r.skipped
            &&& d.outcomes.len() == r.outcomes.len()
        }),
    decreases k,
{
    if k > 0 {
        dry_run_foretells(folder, actions, dry_steps, dry_dones, steps, dones, k - 1);
        assert(is_step(folder, actions[k - 1], dry_steps[k - 1]));
        assert(is_step(folder, actions[k - 1], steps[k - 1]));
        assert(error_of(steps[k - 1], dones[k - 1]) is None);
    }
}

/// The actions that a report lists, each with its file.
pub open spec fn listed(r: ReportView) -> Seq<(int, Seq<char>)> {
    r.outcomes.map_values(|o: OutcomeView| (o.action as int, o.file))
}

/// A dry run and a run list the same actions of the same files, in the same
/// order, whatever fails.
pub proof fn both_runs_list_the_same(
    folder: Seq<char>,
    actions: Seq<PlannedAction>,
    dry_steps: Seq<Step>,
    dry_dones: Seq<Done>,
    steps: Seq<Step>,
    dones: Seq<Done>,
    k: int,
)
    requires
        is_run(folder, actions, dry_steps, dry_dones, true),
        is_run(folder, actions, steps, dones, false),
        0 <= k <= actions.len(),
    ensures
        listed(run_report(actions, dry_steps, dry_dones, true, k)) == listed(
            run_report(actions, steps, dones, false, k),
        ),
    decreases k,
{
    if k > 0 {
        both_runs_list_the_same(folder, actions, dry_steps, dry_dones, steps, dones, k - 1);
        assert(is_step(folder, actions[k - 1], dry_steps[k - 1]));
        assert(is_step(folder, actions[k - 1], steps[k - 1]));
        let (d0, r0) = (
            run_report(actions, dry_steps, dry_dones, true, k - 1),
            run_report(actions, steps, dones, false, k - 1),
        );
        let (d1, r1) = (
            run_report(actions, dry_steps, dry_dones, true, k),
            run_report(actions, steps, dones, false, k),
        );
        if actions[k - 1].runs() {
            let it = (k - 1, actions[k - 1].file@);
            assert(listed(d1) =~= listed(d0).push(it));
            assert(listed(r1) =~= listed(r0).push(it));
        }
    }
}

/// Every action is accounted for: it is skipped, or it has an outcome.
pub proof fn every_action_is_accounted_for(
    actions: Seq<PlannedAction>,
    steps: Seq<Step>,
    dones: Seq<Done>,
    dry_run: bool,
    k: int,
)
    requires
        0 <= k <= actions.len(),
    ensures
        ({
            let r = run_report(actions, steps, dones, dry_run, k);
            &&& r.skipped + r.outcomes.len() == k
            &&& 0 <= r.skipped && 0 <= r.sidecars <= r.outcomes.len()
            &&& 0 <= r.copied <= r.outcomes.len()
            &&& r.dry_run == dry_run
        }),
    decreases k,
{
    if k > 0 {
        every_action_is_accounted_for(actions, steps, dones, dry_run, k - 1);
    }
}

/// Disabled and skipped actions do nothing: only actions that run have
/// outcomes.
pub proof fn only_active_actions_have_outcomes(
    folder: Seq<char>,
    actions: Seq<PlannedAction>,
    steps: Seq<Step>,
    dones: Seq<Done>,
    dry_run: bool,
    k: int,
    o: int,
)
    requires
        is_run(folder, actions, steps, dones, dry_run),
        0 <= k <= actions.len(),
        0 <= o < run_report(actions, steps, dones, dry_run, k).outcomes.len(),
    ensures
        ({
            let a = run_report(actions, steps, dones, dry_run, k).outcomes[o].action;
            0 <= a < k && actions[a].runs()
        }),
    decreases k,
{
    if k > 0 {
        let before = run_report(actions, steps, dones, dry_run, k - 1);
        assert(is_step(folder, actions[k - 1], steps[k - 1]));
        if o < before.outcomes.len() {
            only_active_actions_have_outcomes(
                folder,
                actions,
                steps,
                dones,
                dry_run,
                k - 1,
                o,
            );
        }
    }
}

/// Runs the actions of a recipe without touching anything: the report lists
/// exactly what each action would do.
pub fn dry_run(recipe: &Recipe) -> (r: Report)
    ensures
        exists|steps: Seq<Step>, dones: Seq<Done>| #[trigger]
            is_run(recipe.folder@, recipe.actions@, steps, dones, true) && r@ == run_report(
                recipe.actions@,
                steps,
                dones,
                true,
                recipe.actions@.len() as int,
            ),
{
    let mut report = Report::begin(true);
    let ghost mut steps = Seq::<Step>::empty();
    let ghost mut dones = Seq::<Done>::empty();
    let ghost actions = recipe.actions@;
    let mut i: usize = 0;
    while i < recipe.actions.len()
        invariant
            i <= recipe.actions@.len(),
            actions == recipe.actions@,
            steps.len() == i,
            dones.len() == i,
            forall|j: int|
                0 <= j < i ==> is_step(recipe.folder@, actions[j], #[trigger] steps[j])
                    && can_come_of(steps[j], true, dones[j]),
            report@ == run_report(actions, steps, dones, true, i as int),
        decreases recipe.actions@.len() - i,
    {
        let step = plan(recipe.folder.as_str(), &recipe.actions[i]);
        proof {
            every_action_is_accounted_for(actions, steps, dones, true, i as int);
        }
        let n: usize = recipe.actions.len();
        let ghost before = report@;
        record(&mut report, i, recipe.actions[i].file.as_str(), &step, Done::Nothing);
        proof {
            let (s0, d0) = (steps, dones);
            steps = steps.push(step);
            dones = dones.push(Done::Nothing);
            lemma_same_runs(actions, s0, d0, steps, dones, true, i as int);
        }
        i += 1;
    }
    assert(is_run(recipe.folder@, recipe.actions@, steps, dones, true));
    report
}

/// A report depends only on the steps so far.
proof fn lemma_same_runs(
    actions: Seq<PlannedAction>,
    s1: Seq<Step>,
    d1: Seq<Done>,
    s2: Seq<Step>,
    d2: Seq<Done>,
    dry_run: bool,
    k: int,
)
    requires
        forall|i: int| 0 <= i < k ==> #[trigger] s1[i] == s2[i] && d1[i] == d2[i],
    ensures
        run_report(actions, s1, d1, dry_run, k) == run_report(actions, s2, d2, dry_run, k),
    decreases k,
{
    if k > 0 {
        lemma_same_runs(actions, s1, d1, s2, d2, dry_run, k - 1);
        assert(s1[k - 1] == s2[k - 1]);
    }
}

proof fn lemma_active(actions: Seq<PlannedAction>, k: int)
    requires
        0 <= k <= actions.len(),
    ensures
        forall|i: int, j: int|
            0 <= i < j < active_below(actions, k).len() ==> #[trigger] active_below(actions, k)[i]
                < #[trigger] active_below(actions, k)[j],
        forall|i: int|
            0 <= i < active_below(actions, k).len() ==> 0 <= #[trigger] active_below(actions, k)[i]
                < k && actions[active_below(actions, k)[i]].runs(),
        forall|m: int|
            0 <= m < k && actions[m].runs() ==> #[trigger] active_below(actions, k).contains(m),
    decreases k,
{
    if k > 0 {
        lemma_active(actions, k - 1);
        let rest = active_below(actions, k - 1);
        let all = active_below(actions, k);
        assert forall|m: int| 0 <= m < k && actions[m].runs() implies #[trigger] all.contains(m) by {
            if m < k - 1 {
                assert(rest.contains(m));
                let j = choose|j: int| 0 <= j < rest.len() && rest[j] == m;
                assert(all[j] == m);
            } else {
                assert(all[all.len() - 1] == m);
            }
        }
    }
}

/// The actions that run are those that are enabled and no skip, each once and
/// in their order.
pub proof fn enabled_actions_run(actions: Seq<PlannedAction>, m: int)
    ensures
        ({
            let active = active_below(actions, actions.len() as int);
            &&& active.contains(m) <==> 0 <= m < actions.len() && actions[m].enabled && (
            actions[m].op is WriteXmp || actions[m].op is Copy)
            &&& forall|i: int, j: int|
                0 <= i < j < active.len() ==> #[trigger] active[i] < #[trigger] active[j]
        }),
{
    lemma_active(actions, actions.len() as int);
    let active = active_below(actions, actions.len() as int);
    if active.contains(m) {
        let i = choose|i: int| 0 <= i < active.len() && active[i] == m;
        assert(actions[active[i]].runs());
    }
}

proof fn lemma_failed(s: Seq<OutcomeView>, k: int)
    requires
        0 <= k <= s.len(),
    ensures
        forall|i: int, j: int|
            0 <= i < j < failed_below(s, k).len() ==> #[trigger] failed_below(s, k)[i]
                < #[trigger] failed_below(s, k)[j],
        forall|i: int|
            0 <= i < failed_below(s, k).len() ==> 0 <= #[trigger] failed_below(s, k)[i] < k
                && s[failed_below(s, k)[i]].error is Some,
        forall|m: int|
            0 <= m < k && s[m].error is Some ==> #[trigger] failed_below(s, k).contains(m),
    decreases k,
{
    if k > 0 {
        lemma_failed(s, k - 1);
        let rest = failed_below(s, k - 1);
        let all = failed_below(s, k);
        assert forall|m: int| 0 <= m < k && s[m].error is Some implies #[trigger] all.contains(
            m,
        ) by {
            if m < k - 1 {
                assert(rest.contains(m));
                let j = choose|j: int| 0 <= j < rest.len() && rest[j] == m;
                assert(all[j] == m);
            } else {
                assert(all[all.len() - 1] == m);
            }
        }
    }
}

/// The failures are the outcomes with an error, each once and in their order.
pub proof fn errors_are_failures(s: Seq<OutcomeView>, m: int)
    ensures
        ({
            let failed = failed_below(s, s.len() as int);
            &&& failed.contains(m) <==> 0 <= m < s.len() && s[m].error is Some
            &&& forall|i: int, j: int|
                0 <= i < j < failed.len() ==> #[trigger] failed[i] < #[trigger] failed[j]
        }),
{
    lemma_failed(s, s.len() as int);
    let failed = failed_below(s, s.len() as int);
    if failed.contains(m) {
        let i = choose|i: int| 0 <= i < failed.len() && failed[i] == m;
        assert(s[failed[i]].error is Some);
    }
}

/// Whether an issue of action `i` with a severity is among `issues`.
pub open spec fn has_issue(issues: Seq<IssueView>, i: int, severity: Severity) -> bool {
    exists|j: int|
        0 <= j < issues.len() && (#[trigger] issues[j]).action == i && issues[j].severity
            == severity
}

proof fn lemma_same_target_found(
    actions: Seq<PlannedAction>,
    facts: Seq<Facts>,
    shared: Shared,
    i: int,
    j: int,
)
    ensures
        same_target(actions, facts, shared, i, j) is Some <==> exists|m: int|
            0 <= m < j && copies(actions, facts, m) && #[trigger] shared.contains((m, i)),
        same_target(actions, facts, shared, i, j) matches Some(m) ==> 0 <= m < j && copies(
            actions,
            facts,
            m,
        ) && shared.contains((m, i)),
    decreases j,
{
    if j > 0 {
        lemma_same_target_found(actions, facts, shared, i, j - 1);
        if copies(actions, facts, j - 1) && shared.contains((j - 1, i)) {
        } else if same_target(actions, facts, shared, i, j - 1) is Some {
            let m = same_target(actions, facts, shared, i, j - 1)->0;
            assert(shared.contains((m, i)));
        }
    }
}

proof fn lemma_issues(
    actions: Seq<PlannedAction>,
    facts: Seq<Facts>,
    shared: Shared,
    k: int,
    i: int,
    severity: Severity,
)
    ensures
        has_issue(issues_below(actions, facts, shared, k), i, severity) <==> 0 <= i < k && has_issue(
            issues_of(actions, facts, shared, i),
            i,
            severity,
        ),
    decreases k,
{
    let all = issues_below(actions, facts, shared, k);
    if k > 0 {
        lemma_issues(actions, facts, shared, k - 1, i, severity);
        let rest = issues_below(actions, facts, shared, k - 1);
        let more = issues_of(actions, facts, shared, k - 1);
        assert(all == rest + more);
        if has_issue(rest, i, severity) {
            let j = choose|j: int|
                0 <= j < rest.len() && (#[trigger] rest[j]).action == i && rest[j].severity
                    == severity;
            assert(all[j] == rest[j]);
            assert(has_issue(all, i, severity));
        }
        if has_issue(more, i, severity) {
            let j = choose|j: int|
                0 <= j < more.len() && (#[trigger] more[j]).action == i && more[j].severity
                    == severity;
            assert(all[rest.len() + j] == more[j]);
            assert(has_issue(all, i, severity));
        }
        if has_issue(all, i, severity) {
            let j = choose|j: int|
                0 <= j < all.len() && (#[trigger] all[j]).action == i && all[j].severity
                    == severity;
            if j < rest.len() {
                assert(rest[j] == all[j]);
                assert(has_issue(rest, i, severity));
            } else {
                assert(more[j - rest.len()] == all[j]);
                assert(has_issue(more, i, severity));
                assert(i == k - 1);
            }
        }
    }
}

/// An error is reported of an action exactly where it would run and cannot:
/// its source is missing, or it is a copy into what is there and no folder.
pub proof fn errors_are_what_cannot_run(
    actions: Seq<PlannedAction>,
    facts: Seq<Facts>,
    shared: Shared,
    i: int,
)
    requires
        0 <= i < actions.len(),
    ensures
        has_issue(
            issues_below(actions, facts, shared, actions.len() as int),
            i,
            Severity::Error,
        ) <==> actions[i].enabled && !(actions[i].op is Skip) && (!facts[i].source_exists || (
        actions[i].op is Copy && facts[i].dest_exists && !facts[i].dest_is_dir)),
{
    lemma_issues(actions, facts, shared, actions.len() as int, i, Severity::Error);
    let own = issues_of(actions, facts, shared, i);
    if own.len() > 0 {
        assert(own[0].action == i);
    }
}

/// A warning is given of an action exactly where it runs and touches what is
/// there: a sidecar that it writes over, or a name that is taken, in the
/// destination or by a copy before it.
pub proof fn warnings_are_what_is_touched(
    actions: Seq<PlannedAction>,
    facts: Seq<Facts>,
    shared: Shared,
    i: int,
)
    requires
        0 <= i < actions.len(),
    ensures
        has_issue(
            issues_below(actions, facts, shared, actions.len() as int),
            i,
            Severity::Warning,
        ) <==> actions[i].enabled && facts[i].source_exists && ((actions[i].op is WriteXmp
            && facts[i].sidecar_exists) || (actions[i].op is Copy && (!facts[i].dest_exists
            || facts[i].dest_is_dir) && (facts[i].target_exists || exists|m: int|
            0 <= m < i && copies(actions, facts, m) && #[trigger] shared.contains((m, i))))),
{
    lemma_issues(actions, facts, shared, actions.len() as int, i, Severity::Warning);
    lemma_same_target_found(actions, facts, shared, i, i);
    let own = issues_of(actions, facts, shared, i);
    if own.len() > 0 {
        assert(own[0].action == i);
        assert(own.len() > 1 ==> own[1].action == i);
    }
}

/// Issues are of actions of the recipe, in their order.
pub proof fn issues_follow_the_actions(
    actions: Seq<PlannedAction>,
    facts: Seq<Facts>,
    shared: Shared,
    k: int,
)
    ensures
        forall|i: int|
            0 <= i < issues_below(actions, facts, shared, k).len() ==> 0 <= (
            #[trigger] issues_below(actions, facts, shared, k)[i]).action < k,
        forall|i: int, j: int|
            0 <= i < j < issues_below(actions, facts, shared, k).len() ==> (
            #[trigger] issues_below(actions, facts, shared, k)[i]).action <= (
            #[trigger] issues_below(actions, facts, shared, k)[j]).action,
    decreases k,
{
    if k > 0 {
        issues_follow_the_actions(actions, facts, shared, k - 1);
        let rest = issues_below(actions, facts, shared, k - 1);
        let more = issues_of(actions, facts, shared, k - 1);
        let all = issues_below(actions, facts, shared, k);
        assert(forall|j: int| 0 <= j < more.len() ==> (#[trigger] more[j]).action == k - 1);
        assert(forall|j: int| 0 <= j < rest.len() ==> all[j] == #[trigger] rest[j]);
        assert(forall|j: int| rest.len() <= j < all.len() ==> #[trigger] all[j] == more[j
            - rest.len()]);
    }
}

/// The first `k` actions that `f` holds of.
pub open spec fn those_below(k: int, f: spec_fn(int) -> bool) -> Set<int> {
    Set::new(|i: int| 0 <= i < k && f(i))
}

proof fn lemma_those_below(k: int, f: spec_fn(int) -> bool)
    requires
        k > 0,
    ensures
        those_below(k - 1, f).finite() ==> those_below(k, f).finite() && those_below(k, f).len()
            == those_below(k - 1, f).len() + if f(k - 1) {
            1int
        } else {
            0
        },
{
    let (rest, all) = (those_below(k - 1, f), those_below(k, f));
    if f(k - 1) {
        assert(all =~= rest.insert(k - 1));
    } else {
        assert(all =~= rest);
    }
}

/// Whether action `i` is a copy that was made, or would be in a dry run.
pub open spec fn copied(actions: Seq<PlannedAction>, dones: Seq<Done>) -> spec_fn(int) -> bool {
    |i: int| actions[i].enabled && actions[i].op is Copy && !(dones[i] is CopyFailed)
}

/// Whether a sidecar of action `i` was written, or would be in a dry run: one
/// in place, or one with stars next to a copy.
pub open spec fn rated(actions: Seq<PlannedAction>, dones: Seq<Done>) -> spec_fn(int) -> bool {
    |i: int|
        actions[i].enabled && match actions[i].op {
            Op::WriteXmp { .. } => dones[i] is Nothing || dones[i] == Done::Sidecar(None),
            Op::Copy { rating, .. } => rating > 0 && (dones[i] is Nothing || (dones[i] is Copied
                && dones[i]->Copied_error is None)),
            Op::Skip => false,
        }
}

/// Whether action `i` does nothing.
pub open spec fn left_out(actions: Seq<PlannedAction>) -> spec_fn(int) -> bool {
    |i: int| !actions[i].enabled || actions[i].op is Skip
}

/// A report counts what came of the actions: the copies that were made, the
/// sidecars that were written, and the actions that do nothing.
pub proof fn reports_count_what_was_done(
    folder: Seq<char>,
    actions: Seq<PlannedAction>,
    steps: Seq<Step>,
    dones: Seq<Done>,
    dry_run: bool,
    k: int,
)
    requires
        is_run(folder, actions, steps, dones, dry_run),
        0 <= k <= actions.len(),
    ensures
        ({
            let r = run_report(actions, steps, dones, dry_run, k);
            &&& r.copied == those_below(k, copied(actions, dones)).len()
            &&& r.sidecars == those_below(k, rated(actions, dones)).len()
            &&& r.skipped == those_below(k, left_out(actions)).len()
        }),
        those_below(k, copied(actions, dones)).finite(),
        those_below(k, rated(actions, dones)).finite(),
        those_below(k, left_out(actions)).finite(),
    decreases k,
{
    if k > 0 {
        reports_count_what_was_done(folder, actions, steps, dones, dry_run, k - 1);
        assert(is_step(folder, actions[k - 1], steps[k - 1]));
        lemma_those_below(k, copied(actions, dones));
        lemma_those_below(k, rated(actions, dones));
        lemma_those_below(k, left_out(actions));
    } else {
        assert(those_below(k, copied(actions, dones)) =~= Set::empty());
        assert(those_below(k, rated(actions, dones)) =~= Set::empty());
        assert(those_below(k, left_out(actions)) =~= Set::empty());
    }
}

/// Every action that runs has its outcome, with the error of what it tried.
pub proof fn what_ran_has_its_outcome(
    folder: Seq<char>,
    actions: Seq<PlannedAction>,
    steps: Seq<Step>,
    dones: Seq<Done>,
    dry_run: bool,
    k: int,
    i: int,
) -> (o: int)
    requires
        is_run(folder, actions, steps, dones, dry_run),
        0 <= i < k <= actions.len(),
        actions[i].enabled,
        !(actions[i].op is Skip),
    ensures
        0 <= o < run_report(actions, steps, dones, dry_run, k).outcomes.len(),
        ({
            let out = run_report(actions, steps, dones, dry_run, k).outcomes[o];
            &&& out.action == i
            &&& out.file == actions[i].file@
            &&& dones[i] is Nothing ==> out.error is None
            &&& dones[i] matches Done::Sidecar(e) ==> match e {
                Some(e) => out.error == Some(e@),
                None => out.error is None,
            }
            &&& dones[i] matches Done::CopyFailed(e) ==> out.error == Some(e@)
            &&& dones[i] matches Done::Copied { error, .. } ==> match error {
                Some(e) => actions[i].op->Copy_rating > 0 ==> out.error == Some(e@),
                None => out.error is None,
            }
        }),
    decreases k,
{
    assert(is_step(folder, actions[k - 1], steps[k - 1]));
    let before = run_report(actions, steps, dones, dry_run, k - 1);
    if i < k - 1 {
        let o = what_ran_has_its_outcome(folder, actions, steps, dones, dry_run, k - 1, i);
        assert(run_report(actions, steps, dones, dry_run, k).outcomes[o] == before.outcomes[o]);
        o
    } else {
        before.outcomes.len() as int
    }
}

} // verus!
