//! The chain executor: a state machine that drives a planned update chain
//! step by step, strictly in chain order, aborting everything that remains
//! at the first failure.
//!
//! The machine owns every decision; the caller performs the outside work.
//! `next_action` says what to do for the current step — check the working
//! tree exists, check it is clean, run the resolution command, stage the
//! descriptor and inspect the staged diff, commit, push — and `apply`
//! consumes the outcome event and moves the machine on. The caller never
//! decides anything: it runs one action, reports one event, and repeats
//! until `next_action` returns `Done`.
//!
//! In dry-run mode every step is recorded as skipped after the existence
//! check, and no resolution, cleanliness, commit or push action is ever
//! requested.

use vstd::prelude::*;
use vstd::string::StringExecFns;

use crate::UpdateStep;
use crate::graph::views;

verus! {

/// Terminal record for one executed step.
#[derive(Clone, Copy, PartialEq, Eq, Structural)]
pub enum StepOutcome {
    /// The descriptor changed, was committed and pushed.
    Applied,
    /// The descriptor re-resolved to the identical lock state; nothing was
    /// committed.
    Unchanged,
    /// Dry run: the step was shown, not performed.
    Skipped,
}

/// Execution errors; each aborts the whole remaining chain.
#[derive(Debug)]
pub enum ExecError {
    /// The step's repository has no working tree under the workspace root.
    MissingRepo { repo: String },
    /// The working tree has uncommitted changes.
    DirtyTree { repo: String },
    /// The resolution command failed, or the descriptor could not be staged.
    UpdateFailed { repo: String, detail: String },
    /// The commit command failed.
    CommitFailed { repo: String, detail: String },
    /// The push command failed.
    PushFailed { repo: String, detail: String },
}

/// What the caller must do next.
pub enum Action {
    /// Check that the repository's working tree exists.
    CheckRepo { repo: String },
    /// Check that the working tree has no uncommitted changes.
    CheckClean { repo: String },
    /// Run the dependency-resolution command scoped to exactly `inputs`.
    RunUpdate { repo: String, inputs: Vec<String> },
    /// Stage the descriptor file and inspect whether the staged diff is
    /// empty.
    StageDescriptor { repo: String },
    /// Commit the staged descriptor with the given message.
    Commit { repo: String, message: String },
    /// Push the commit to the configured upstream.
    Push { repo: String },
    /// Nothing remains: the run is complete or has failed.
    Done,
}

/// What the caller observed.
pub enum Event {
    /// Whether the working tree exists.
    RepoChecked { exists: bool },
    /// Whether the working tree is clean.
    CleanChecked { clean: bool },
    /// Whether the resolution command succeeded, with its diagnostic text.
    UpdateRan { ok: bool, detail: String },
    /// Whether staging succeeded and whether the staged diff is empty.
    Staged { ok: bool, empty: bool, detail: String },
    /// Whether the commit command succeeded.
    Committed { ok: bool, detail: String },
    /// Whether the push command succeeded.
    Pushed { ok: bool, detail: String },
}

/// Where the machine stands within the current step.
#[derive(Clone, Copy, PartialEq, Eq, Structural)]
pub enum Phase {
    AtRepo,
    AtClean,
    AtUpdate,
    AtStage,
    AtCommit,
    AtPush,
}

/// Whether the run still goes on, finished, or aborted.
pub enum RunState {
    Running,
    Complete,
    Failed { error: ExecError },
}

/// The executor state machine.
pub struct ChainExecutor {
    /// The planned chain, consumed read-only in order.
    pub chain: Vec<UpdateStep>,
    /// Dry run: report each step as skipped, run nothing.
    pub dry_run: bool,
    /// Index of the current step; equals the number of completed steps.
    pub idx: usize,
    /// Position within the current step.
    pub phase: Phase,
    /// Outcome of each completed step, in chain order.
    pub outcomes: Vec<StepOutcome>,
    /// Whether the run goes on, finished, or aborted.
    pub state: RunState,
}

/// The space-joined concatenation of the given parts.
pub open spec fn joined_with_spaces(parts: Seq<Seq<char>>) -> Seq<char>
    decreases parts.len(),
{
    if parts.len() == 0 {
        Seq::empty()
    } else if parts.len() == 1 {
        parts[0]
    } else {
        joined_with_spaces(parts.drop_last()) + " "@ + parts.last()
    }
}

/// The commit message derived from the updated input names.
pub open spec fn commit_message_spec(inputs: Seq<Seq<char>>) -> Seq<char> {
    "chore: update "@ + joined_with_spaces(inputs)
}

/// Builds the deterministic commit message for a step's inputs.
pub fn commit_message(inputs: &Vec<String>) -> (r: String)
    ensures
        r@ == commit_message_spec(views(inputs@)),
{
    let mut s: String = "chore: update ".to_owned();
    let mut k: usize = 0;
    while k < inputs.len()
        invariant
            k <= inputs@.len(),
            s@ == "chore: update "@ + joined_with_spaces(views(inputs@).take(k as int)),
        decreases inputs@.len() - k,
    {
        if k > 0 {
            s.append(" ");
        }
        s.append(inputs[k].as_str());
        proof {
            let vs = views(inputs@);
            assert(vs.take(k + 1).drop_last() =~= vs.take(k as int));
            assert(vs.take(k + 1).last() == vs[k as int]);
            if k == 0 {
                assert(vs.take(1).len() == 1);
                assert(joined_with_spaces(vs.take(1)) == vs[0int]);
                assert(s@ =~= "chore: update "@ + joined_with_spaces(vs.take(1)));
            } else {
                assert(joined_with_spaces(vs.take(k + 1)) == joined_with_spaces(vs.take(k as int))
                    + " "@ + vs[k as int]);
                assert(s@ =~= "chore: update "@ + joined_with_spaces(vs.take(k + 1)));
            }
        }
        k += 1;
    }
    proof {
        assert(views(inputs@).take(inputs@.len() as int) =~= views(inputs@));
    }
    s
}

impl ChainExecutor {
    /// The machine is consistent: one recorded outcome per completed step,
    /// the current step in range while running, a failed run stopped at its
    /// failing step, and a dry run that only ever checks existence and has
    /// skipped everything it completed.
    pub open spec fn wf(self) -> bool {
        &&& self.outcomes@.len() == self.idx as int
        &&& (self.state is Running ==> self.idx < self.chain@.len())
        &&& (self.state is Complete ==> self.idx == self.chain@.len())
        &&& (self.state is Failed ==> self.idx < self.chain@.len())
        &&& (self.dry_run ==> forall|k: int|
            0 <= k < self.outcomes@.len() ==> self.outcomes@[k] is Skipped)
        &&& (self.dry_run && self.state is Running ==> self.phase is AtRepo)
    }

    /// A fresh run over `chain`.
    pub fn new(chain: Vec<UpdateStep>, dry_run: bool) -> (e: ChainExecutor)
        ensures
            e.wf(),
            e.chain@ == chain@,
            e.dry_run == dry_run,
            e.idx == 0,
            e.outcomes@.len() == 0,
            e.state is Complete <==> chain@.len() == 0,
            chain@.len() > 0 ==> e.state is Running && e.phase is AtRepo,
    {
        let n = chain.len();
        ChainExecutor {
            chain,
            dry_run,
            idx: 0,
            phase: Phase::AtRepo,
            outcomes: Vec::new(),
            state: if n == 0 {
                RunState::Complete
            } else {
                RunState::Running
            },
        }
    }

    /// What the caller must do next. While the run goes on, the action
    /// addresses the current step's repository and follows the per-step
    /// protocol; a dry run only ever asks for the existence check.
    pub fn next_action(&self) -> (a: Action)
        requires
            self.wf(),
        ensures
            !(self.state is Running) ==> a is Done,
            self.state is Running ==> ({
                let step = self.chain@[self.idx as int];
                match a {
                    Action::CheckRepo { repo } => self.phase is AtRepo && repo@ == step.repo@,
                    Action::CheckClean { repo } => self.phase is AtClean && repo@ == step.repo@,
                    Action::RunUpdate { repo, inputs } => self.phase is AtUpdate && repo@
                        == step.repo@ && views(inputs@) == views(step.inputs@),
                    Action::StageDescriptor { repo } => self.phase is AtStage && repo@
                        == step.repo@,
                    Action::Commit { repo, message } => self.phase is AtCommit && repo@
                        == step.repo@ && message@ == commit_message_spec(views(step.inputs@)),
                    Action::Push { repo } => self.phase is AtPush && repo@ == step.repo@,
                    Action::Done => false,
                }
            }),
            self.dry_run ==> match a {
                Action::CheckRepo { .. } => true,
                Action::Done => true,
                _ => false,
            },
    {
        match &self.state {
            RunState::Running => {
                let step = &self.chain[self.idx];
                match self.phase {
                    Phase::AtRepo => Action::CheckRepo { repo: step.repo.clone() },
                    Phase::AtClean => Action::CheckClean { repo: step.repo.clone() },
                    Phase::AtUpdate => Action::RunUpdate {
                        repo: step.repo.clone(),
                        inputs: clone_strings(&step.inputs),
                    },
                    Phase::AtStage => Action::StageDescriptor { repo: step.repo.clone() },
                    Phase::AtCommit => Action::Commit {
                        repo: step.repo.clone(),
                        message: commit_message(&step.inputs),
                    },
                    Phase::AtPush => Action::Push { repo: step.repo.clone() },
                }
            },
            _ => Action::Done,
        }
    }
}

/// Whether `ev` is the kind of observation the given phase expects.
pub open spec fn event_matches(phase: Phase, ev: Event) -> bool {
    match phase {
        Phase::AtRepo => ev is RepoChecked,
        Phase::AtClean => ev is CleanChecked,
        Phase::AtUpdate => ev is UpdateRan,
        Phase::AtStage => ev is Staged,
        Phase::AtCommit => ev is Committed,
        Phase::AtPush => ev is Pushed,
    }
}

/// The run aborted: the machine stands failed at the same step, with no
/// outcome recorded for it and nothing after it ever attempted.
pub open spec fn aborted(pre: ChainExecutor, post: ChainExecutor) -> bool {
    &&& post.idx == pre.idx
    &&& post.outcomes@ == pre.outcomes@
    &&& post.state is Failed
}

/// The current step finished with `outcome` and the machine moved to the
/// next step (or completed the run).
pub open spec fn advanced(pre: ChainExecutor, post: ChainExecutor, outcome: StepOutcome) -> bool {
    &&& post.idx == pre.idx + 1
    &&& post.outcomes@ == pre.outcomes@.push(outcome)
    &&& (post.state is Running <==> pre.idx + 1 < pre.chain@.len())
    &&& (post.state is Complete <==> pre.idx + 1 == pre.chain@.len())
    &&& (post.state is Running ==> post.phase is AtRepo)
}

/// The machine stayed at the same step and moved to phase `ph`.
pub open spec fn moved_to(pre: ChainExecutor, post: ChainExecutor, ph: Phase) -> bool {
    &&& post.idx == pre.idx
    &&& post.outcomes@ == pre.outcomes@
    &&& post.state is Running
    &&& post.phase == ph
}

impl ChainExecutor {
    /// Consumes the observation for the current action and moves the
    /// machine on: a failure report aborts the whole remaining chain with
    /// the error of the current step; a missing working tree is fatal; a
    /// dry run records the step as skipped right after the existence check;
    /// an empty staged diff records it as unchanged with nothing committed;
    /// a pushed commit records it as applied.
    pub fn apply(&mut self, ev: Event)
        requires
            old(self).wf(),
            old(self).state is Running,
            event_matches(old(self).phase, ev),
        ensures
            final(self).wf(),
            final(self).chain@ == old(self).chain@,
            final(self).dry_run == old(self).dry_run,
            ({
                let pre = *old(self);
                let post = *final(self);
                let step = pre.chain@[pre.idx as int];
                match ev {
                    Event::RepoChecked { exists } => if !exists {
                        aborted(pre, post) && (post.state matches RunState::Failed { error }
                            && error matches ExecError::MissingRepo { repo } && repo@
                            == step.repo@)
                    } else if pre.dry_run {
                        advanced(pre, post, StepOutcome::Skipped)
                    } else {
                        moved_to(pre, post, Phase::AtClean)
                    },
                    Event::CleanChecked { clean } => if !clean {
                        aborted(pre, post) && (post.state matches RunState::Failed { error }
                            && error matches ExecError::DirtyTree { repo } && repo@ == step.repo@)
                    } else {
                        moved_to(pre, post, Phase::AtUpdate)
                    },
                    Event::UpdateRan { ok, detail } => if !ok {
                        aborted(pre, post) && (post.state matches RunState::Failed { error }
                            && error matches ExecError::UpdateFailed { repo, detail: d } && repo@
                            == step.repo@ && d@ == detail@)
                    } else {
                        moved_to(pre, post, Phase::AtStage)
                    },
                    Event::Staged { ok, empty, detail } => if !ok {
                        aborted(pre, post) && (post.state matches RunState::Failed { error }
                            && error matches ExecError::UpdateFailed { repo, detail: d } && repo@
                            == step.repo@ && d@ == detail@)
                    } else if empty {
                        advanced(pre, post, StepOutcome::Unchanged)
                    } else {
                        moved_to(pre, post, Phase::AtCommit)
                    },
                    Event::Committed { ok, detail } => if !ok {
                        aborted(pre, post) && (post.state matches RunState::Failed { error }
                            && error matches ExecError::CommitFailed { repo, detail: d } && repo@
                            == step.repo@ && d@ == detail@)
                    } else {
                        moved_to(pre, post, Phase::AtPush)
                    },
                    Event::Pushed { ok, detail } => if !ok {
                        aborted(pre, post) && (post.state matches RunState::Failed { error }
                            && error matches ExecError::PushFailed { repo, detail: d } && repo@
                            == step.repo@ && d@ == detail@)
                    } else {
                        advanced(pre, post, StepOutcome::Applied)
                    },
                }
            }),
    {
        match self.phase {
            Phase::AtRepo => match ev {
                Event::RepoChecked { exists } => {
                    if !exists {
                        let repo = self.chain[self.idx].repo.clone();
                        self.state = RunState::Failed { error: ExecError::MissingRepo { repo } };
                    } else if self.dry_run {
                        self.finish_step(StepOutcome::Skipped);
                    } else {
                        self.phase = Phase::AtClean;
                    }
                },
                _ => {
                    proof {
                        assert(false);
                    }
                },
            },
            Phase::AtClean => match ev {
                Event::CleanChecked { clean } => {
                    if !clean {
                        let repo = self.chain[self.idx].repo.clone();
                        self.state = RunState::Failed { error: ExecError::DirtyTree { repo } };
                    } else {
                        self.phase = Phase::AtUpdate;
                    }
                },
                _ => {
                    proof {
                        assert(false);
                    }
                },
            },
            Phase::AtUpdate => match ev {
                Event::UpdateRan { ok, detail } => {
                    if !ok {
                        let repo = self.chain[self.idx].repo.clone();
                        self.state = RunState::Failed {
                            error: ExecError::UpdateFailed { repo, detail },
                        };
                    } else {
                        self.phase = Phase::AtStage;
                    }
                },
                _ => {
                    proof {
                        assert(false);
                    }
                },
            },
            Phase::AtStage => match ev {
                Event::Staged { ok, empty, detail } => {
                    if !ok {
                        let repo = self.chain[self.idx].repo.clone();
                        self.state = RunState::Failed {
                            error: ExecError::UpdateFailed { repo, detail },
                        };
                    } else if empty {
                        self.finish_step(StepOutcome::Unchanged);
                    } else {
                        self.phase = Phase::AtCommit;
                    }
                },
                _ => {
                    proof {
                        assert(false);
                    }
                },
            },
            Phase::AtCommit => match ev {
                Event::Committed { ok, detail } => {
                    if !ok {
                        let repo = self.chain[self.idx].repo.clone();
                        self.state = RunState::Failed {
                            error: ExecError::CommitFailed { repo, detail },
                        };
                    } else {
                        self.phase = Phase::AtPush;
                    }
                },
                _ => {
                    proof {
                        assert(false);
                    }
                },
            },
            Phase::AtPush => match ev {
                Event::Pushed { ok, detail } => {
                    if !ok {
                        let repo = self.chain[self.idx].repo.clone();
                        self.state = RunState::Failed {
                            error: ExecError::PushFailed { repo, detail },
                        };
                    } else {
                        self.finish_step(StepOutcome::Applied);
                    }
                },
                _ => {
                    proof {
                        assert(false);
                    }
                },
            },
        }
    }

    /// Records the current step's outcome and moves to the next step.
    fn finish_step(&mut self, outcome: StepOutcome)
        requires
            old(self).wf(),
            old(self).state is Running,
            old(self).dry_run ==> outcome is Skipped,
        ensures
            final(self).chain@ == old(self).chain@,
            final(self).dry_run == old(self).dry_run,
            final(self).wf(),
            advanced(*old(self), *final(self), outcome),
    {
        self.outcomes.push(outcome);
        let n = self.chain.len();
        assert(self.idx < n);
        self.idx += 1;
        if self.idx == self.chain.len() {
            self.state = RunState::Complete;
        } else {
            self.phase = Phase::AtRepo;
        }
    }
}

/// a completed dry run reported exactly one outcome per planned step,
/// in chain order, every one of them skipped.
pub proof fn lemma_dry_run_reports_all_skipped(e: ChainExecutor)
    requires
        e.wf(),
        e.dry_run,
        e.state is Complete,
    ensures
        e.outcomes@.len() == e.chain@.len(),
        forall|k: int| 0 <= k < e.outcomes@.len() ==> e.outcomes@[k] is Skipped,
{
}

/// execution stops at the first failing step. An observation that
/// reports failure leaves the machine failed at that very step, records no
/// outcome for it, and the machine never asks for an action again, so no
/// later step is attempted.
pub proof fn lemma_fail_fast(pre: ChainExecutor, post: ChainExecutor)
    requires
        aborted(pre, post),
    ensures
        post.idx == pre.idx,
        post.outcomes@ == pre.outcomes@,
        !(post.state is Running),
        !(post.state is Complete),
{
}

/// A copy of a list of names, equal element by element.
fn clone_strings(v: &Vec<String>) -> (r: Vec<String>)
    ensures
        views(r@) == views(v@),
{
    let mut r: Vec<String> = Vec::new();
    let mut i: usize = 0;
    while i < v.len()
        invariant
            i <= v@.len(),
            r@.len() == i,
            forall|k: int| 0 <= k < i ==> views(r@)[k] == views(v@)[k],
        decreases v@.len() - i,
    {
        r.push(v[i].clone());
        i += 1;
    }
    proof {
        assert(views(r@) =~= views(v@));
    }
    r
}

} // verus!
