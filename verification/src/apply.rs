//! The decisions as a list of steps that make the staged instance what it is to
//! become, and the settings it launches with.
use vstd::prelude::*;
use vstd::string::*;

use crate::ini::{value_of, with_value, LineView};
use crate::mods::{
    collected, count, lemma_count_all, lemma_count_none, lemma_count_sum, DecisionView,
    StateChangeView, DISABLED_SUFFIX,
};
use crate::plan::{
    carry_of, group_of, is_carried, BinaryView, CarryView, ConflictView, Plan, PlanView,
};
use crate::prism::{answered, merge_instance_cfg, merged_cfg, Ini};
use crate::state::InstanceState;
use crate::text::{strip_suffix, texts, without_suffix};
use crate::textmap::entry_keys;
use crate::util::{join_path, path_in};

verus! {

/// How often applying tells how far it has come.
pub const APPLY_REPORT_EVERY: usize = 32;

pub struct ApplyInput<'a> {
    /// The old instance directory (not `.minecraft`).
    pub old_instance: &'a str,
    /// Where the new pack was extracted, e.g. `…/GTNH-daily-690.part`.
    pub staging: &'a str,
    /// Final directory name inside the instances root.
    pub final_name: &'a str,
    pub instances_root: &'a str,
    pub display_name: &'a str,
    pub state: InstanceState,
}

// ---------------------------------------------------------------------------
// Steps
// ---------------------------------------------------------------------------

/// One thing to do. All paths are relative to the staged `.minecraft`.
#[derive(Debug)]
pub enum Step {
    /// Write this text.
    Write { rel: String, text: String },
    /// Copy the old instance's file, which has to be there.
    Copy { rel: String },
    /// Copy the old instance's file if it is still there.
    CopyIfPresent { rel: String },
    /// The extracted file stays.
    Leave { rel: String },
    /// Carry a mod of the old instance over.
    Keep { rel: String, file: String },
    /// Give an extracted mod the other name, which turns it on or off.
    Rename { from: String, to: String },
    /// Write the settings that the new instance launches with.
    Configure,
    /// Save which build the new instance is on.
    SaveState,
    /// Move the staged instance into place.
    MoveIntoPlace,
    /// Add the new instance to the group that the old one is in.
    JoinGroup,
}

/// A step as texts.
pub enum StepView {
    Write { rel: Seq<char>, text: Seq<char> },
    Copy { rel: Seq<char> },
    CopyIfPresent { rel: Seq<char> },
    Leave { rel: Seq<char> },
    Keep { rel: Seq<char>, file: Seq<char> },
    Rename { from: Seq<char>, to: Seq<char> },
    Configure,
    SaveState,
    MoveIntoPlace,
    JoinGroup,
}

impl View for Step {
    type V = StepView;

    open spec fn view(&self) -> StepView {
        match *self {
            Step::Write { rel, text } => StepView::Write { rel: rel@, text: text@ },
            Step::Copy { rel } => StepView::Copy { rel: rel@ },
            Step::CopyIfPresent { rel } => StepView::CopyIfPresent { rel: rel@ },
            Step::Leave { rel } => StepView::Leave { rel: rel@ },
            Step::Keep { rel, file } => StepView::Keep { rel: rel@, file: file@ },
            Step::Rename { from, to } => StepView::Rename { from: from@, to: to@ },
            Step::Configure => StepView::Configure,
            Step::SaveState => StepView::SaveState,
            Step::MoveIntoPlace => StepView::MoveIntoPlace,
            Step::JoinGroup => StepView::JoinGroup,
        }
    }
}

pub open spec fn step_views(s: Seq<Step>) -> Seq<StepView> {
    s.map_values(|x: Step| x@)
}

/// The name of a mod file in the other state.
pub open spec fn switched(rel: Seq<char>, enable: bool) -> Seq<char> {
    if enable {
        match strip_suffix(rel, ".disabled"@) {
            Some(on) => on,
            None => rel,
        }
    } else {
        rel + ".disabled"@
    }
}

pub open spec fn merged_step(m: (Seq<char>, Seq<char>)) -> StepView {
    StepView::Write { rel: m.0, text: m.1 }
}

pub open spec fn conflict_step(c: ConflictView) -> StepView {
    StepView::Write { rel: c.rel, text: c.merge.rendered() }
}

pub open spec fn binary_step(c: BinaryView) -> StepView {
    if c.take_pack {
        StepView::Leave { rel: c.rel }
    } else {
        StepView::Copy { rel: c.rel }
    }
}

pub open spec fn keep_step(d: DecisionView) -> Option<StepView> {
    if d.keep {
        Some(StepView::Keep { rel: d.rel, file: d.file })
    } else {
        None
    }
}

pub open spec fn switch_step(c: StateChangeView) -> StepView {
    StepView::Rename { from: c.rel, to: switched(c.rel, c.enable) }
}

/// The files of the groups that are carried over.
pub open spec fn carried_paths(groups: Seq<CarryView>) -> Seq<Seq<char>>
    decreases groups.len(),
{
    if groups.len() == 0 {
        Seq::empty()
    } else {
        carried_paths(groups.drop_last()) + if groups.last().enabled {
            groups.last().files
        } else {
            Seq::empty()
        }
    }
}

pub open spec fn merged_steps(plan: PlanView) -> Seq<StepView> {
    plan.auto_merged.map_values(|m: (Seq<char>, Seq<char>)| merged_step(m))
}

pub open spec fn conflict_steps(plan: PlanView) -> Seq<StepView> {
    plan.conflicts.map_values(|c: ConflictView| conflict_step(c))
}

pub open spec fn yours_steps(plan: PlanView) -> Seq<StepView> {
    plan.keep_yours.map_values(|rel: Seq<char>| (StepView::Copy { rel }))
}

pub open spec fn binary_steps(plan: PlanView) -> Seq<StepView> {
    plan.binary_conflicts.map_values(|c: BinaryView| binary_step(c))
}

pub open spec fn keep_steps(plan: PlanView) -> Seq<StepView> {
    collected(plan.mods.decisions, |d: DecisionView| keep_step(d))
}

pub open spec fn switch_steps(plan: PlanView) -> Seq<StepView> {
    plan.mods.state_changes.map_values(|c: StateChangeView| switch_step(c))
}

pub open spec fn carry_steps(plan: PlanView) -> Seq<StepView> {
    carried_paths(plan.carry).map_values(|rel: Seq<char>| (StepView::CopyIfPresent { rel }))
}

/// Every decision of a plan, in the order in which it is applied.
pub open spec fn file_steps(plan: PlanView) -> Seq<StepView> {
    merged_steps(plan) + conflict_steps(plan) + yours_steps(plan) + binary_steps(plan)
        + keep_steps(plan) + switch_steps(plan) + carry_steps(plan)
}

/// What is done once the files are there.
pub open spec fn closing_steps() -> Seq<StepView> {
    seq![
        StepView::Configure,
        StepView::SaveState,
        StepView::MoveIntoPlace,
        StepView::JoinGroup,
    ]
}

/// All there is to do, in order.
pub open spec fn steps_of(plan: PlanView) -> Seq<StepView> {
    file_steps(plan) + closing_steps()
}

fn other_name(rel: &str, enable: bool) -> (r: String)
    ensures
        r@ == switched(rel@, enable),
{
    if enable {
        match without_suffix(rel, DISABLED_SUFFIX) {
            Some(on) => on,
            None => rel.to_owned(),
        }
    } else {
        let mut out = rel.to_owned();
        out.append(DISABLED_SUFFIX);
        out
    }
}

fn add_texts(plan: &Plan, out: &mut Vec<Step>)
    ensures
        step_views(final(out)@) == step_views(old(out)@) + merged_steps(plan@)
            + conflict_steps(plan@),
{
    let ghost start = step_views(out@);
    let ghost wanted = merged_steps(plan@);
    let mut i: usize = 0;
    assert(start + wanted.take(0) =~= start);
    while i < plan.auto_merged.len()
        invariant
            wanted == merged_steps(plan@),
            i <= plan.auto_merged.len(),
            step_views(out@) == start + wanted.take(i as int),
        decreases plan.auto_merged.len() - i,
    {
        let ghost o0 = step_views(out@);
        let step = Step::Write {
            rel: plan.auto_merged[i].0.clone(),
            text: plan.auto_merged[i].1.clone(),
        };
        let ghost sv = step@;
        out.push(step);
        proof {
            assert(sv == wanted[i as int]);
            assert(step_views(out@) =~= o0.push(sv));
            assert(start + wanted.take(i + 1) =~= o0.push(sv));
        }
        i += 1;
    }
    assert(wanted.take(i as int) =~= wanted);
    let ghost start2 = step_views(out@);
    let ghost wanted2 = conflict_steps(plan@);
    let mut k: usize = 0;
    assert(start2 + wanted2.take(0) =~= start2);
    while k < plan.conflicts.len()
        invariant
            wanted2 == conflict_steps(plan@),
            k <= plan.conflicts.len(),
            step_views(out@) == start2 + wanted2.take(k as int),
        decreases plan.conflicts.len() - k,
    {
        let ghost o0 = step_views(out@);
        let step = Step::Write {
            rel: plan.conflicts[k].rel.clone(),
            text: plan.conflicts[k].merge.render(),
        };
        let ghost sv = step@;
        out.push(step);
        proof {
            assert(sv == wanted2[k as int]);
            assert(step_views(out@) =~= o0.push(sv));
            assert(start2 + wanted2.take(k + 1) =~= o0.push(sv));
        }
        k += 1;
    }
    assert(wanted2.take(k as int) =~= wanted2);
}

fn add_yours(plan: &Plan, out: &mut Vec<Step>)
    ensures
        step_views(final(out)@) == step_views(old(out)@) + yours_steps(plan@) + binary_steps(plan@),
{
    let ghost start = step_views(out@);
    let ghost wanted = yours_steps(plan@);
    let mut i: usize = 0;
    assert(start + wanted.take(0) =~= start);
    while i < plan.keep_yours.len()
        invariant
            wanted == yours_steps(plan@),
            i <= plan.keep_yours.len(),
            step_views(out@) == start + wanted.take(i as int),
        decreases plan.keep_yours.len() - i,
    {
        let ghost o0 = step_views(out@);
        let step = Step::Copy { rel: plan.keep_yours[i].clone() };
        let ghost sv = step@;
        out.push(step);
        proof {
            assert(sv == wanted[i as int]);
            assert(step_views(out@) =~= o0.push(sv));
            assert(start + wanted.take(i + 1) =~= o0.push(sv));
        }
        i += 1;
    }
    assert(wanted.take(i as int) =~= wanted);
    let ghost start2 = step_views(out@);
    let ghost wanted2 = binary_steps(plan@);
    let mut k: usize = 0;
    assert(start2 + wanted2.take(0) =~= start2);
    while k < plan.binary_conflicts.len()
        invariant
            wanted2 == binary_steps(plan@),
            k <= plan.binary_conflicts.len(),
            step_views(out@) == start2 + wanted2.take(k as int),
        decreases plan.binary_conflicts.len() - k,
    {
        let ghost o0 = step_views(out@);
        let rel = plan.binary_conflicts[k].rel.clone();
        let step = if plan.binary_conflicts[k].take_pack {
            Step::Leave { rel }
        } else {
            Step::Copy { rel }
        };
        let ghost sv = step@;
        out.push(step);
        proof {
            assert(sv == wanted2[k as int]);
            assert(step_views(out@) =~= o0.push(sv));
            assert(start2 + wanted2.take(k + 1) =~= o0.push(sv));
        }
        k += 1;
    }
    assert(wanted2.take(k as int) =~= wanted2);
}

fn add_mods(plan: &Plan, out: &mut Vec<Step>)
    ensures
        step_views(final(out)@) == step_views(old(out)@) + keep_steps(plan@) + switch_steps(plan@),
{
    let ghost start = step_views(out@);
    let ghost all = plan@.mods.decisions;
    let ghost f = |d: DecisionView| keep_step(d);
    let mut i: usize = 0;
    proof {
        assert(all.take(0) =~= Seq::empty());
        assert(start + Seq::<StepView>::empty() =~= start);
    }
    while i < plan.mods.decisions.len()
        invariant
            all == plan@.mods.decisions,
            f == (|d: DecisionView| keep_step(d)),
            i <= plan.mods.decisions.len(),
            step_views(out@) == start + collected(all.take(i as int), f),
        decreases plan.mods.decisions.len() - i,
    {
        let ghost o0 = step_views(out@);
        let ghost so_far = collected(all.take(i as int), f);
        proof {
            assert(all.take(i + 1).drop_last() =~= all.take(i as int));
            assert(all.take(i + 1).last() == plan.mods.decisions@[i as int]@);
        }
        if plan.mods.decisions[i].keep {
            let step = Step::Keep {
                rel: plan.mods.decisions[i].rel.clone(),
                file: plan.mods.decisions[i].file.clone(),
            };
            let ghost sv = step@;
            out.push(step);
            proof {
                assert(f(all[i as int]) == Some(sv));
                assert(step_views(out@) =~= o0.push(sv));
                assert(start + so_far.push(sv) =~= o0.push(sv));
            }
        }
        i += 1;
    }
    assert(all.take(i as int) =~= all);
    let ghost start2 = step_views(out@);
    let ghost wanted2 = switch_steps(plan@);
    let mut k: usize = 0;
    assert(start2 + wanted2.take(0) =~= start2);
    while k < plan.mods.state_changes.len()
        invariant
            wanted2 == switch_steps(plan@),
            k <= plan.mods.state_changes.len(),
            step_views(out@) == start2 + wanted2.take(k as int),
        decreases plan.mods.state_changes.len() - k,
    {
        let ghost o0 = step_views(out@);
        let from = plan.mods.state_changes[k].rel.clone();
        let to = other_name(from.as_str(), plan.mods.state_changes[k].enable);
        let step = Step::Rename { from, to };
        let ghost sv = step@;
        out.push(step);
        proof {
            assert(sv == wanted2[k as int]);
            assert(step_views(out@) =~= o0.push(sv));
            assert(start2 + wanted2.take(k + 1) =~= o0.push(sv));
        }
        k += 1;
    }
    assert(wanted2.take(k as int) =~= wanted2);
}

pub open spec fn copies(paths: Seq<Seq<char>>) -> Seq<StepView> {
    paths.map_values(|rel: Seq<char>| (StepView::CopyIfPresent { rel }))
}

fn add_carry(plan: &Plan, out: &mut Vec<Step>)
    ensures
        step_views(final(out)@) == step_views(old(out)@) + carry_steps(plan@),
{
    let ghost start = step_views(out@);
    let ghost groups = plan@.carry;
    let mut i: usize = 0;
    proof {
        assert(groups.take(0) =~= Seq::empty());
        assert(start + copies(carried_paths(groups.take(0))) =~= start);
    }
    while i < plan.carry.len()
        invariant
            groups == plan@.carry,
            i <= plan.carry.len(),
            step_views(out@) == start + copies(carried_paths(groups.take(i as int))),
        decreases plan.carry.len() - i,
    {
        let group = &plan.carry[i];
        let ghost so_far = step_views(out@);
        let ghost files = texts(group.files@);
        proof {
            assert(groups.take(i + 1).drop_last() =~= groups.take(i as int));
            assert(groups.take(i + 1).last() == group@);
            assert(copies(carried_paths(groups.take(i as int)) + Seq::empty()) =~= copies(
                carried_paths(groups.take(i as int)),
            ));
        }
        if group.enabled {
            let mut k: usize = 0;
            assert(so_far + copies(files.take(0)) =~= so_far);
            while k < group.files.len()
                invariant
                    files == texts(group.files@),
                    k <= group.files.len(),
                    step_views(out@) == so_far + copies(files.take(k as int)),
                decreases group.files.len() - k,
            {
                let ghost o0 = step_views(out@);
                let step = Step::CopyIfPresent { rel: group.files[k].clone() };
                let ghost sv = step@;
                out.push(step);
                proof {
                    assert(step_views(out@) =~= o0.push(sv));
                    assert(copies(files.take(k + 1)) =~= copies(files.take(k as int)).push(sv));
                    assert(so_far + copies(files.take(k + 1)) =~= o0.push(sv));
                }
                k += 1;
            }
            proof {
                assert(files.take(k as int) =~= files);
                assert(so_far + copies(files) =~= start + copies(
                    carried_paths(groups.take(i as int)) + files,
                ));
            }
        }
        i += 1;
    }
    assert(groups.take(i as int) =~= groups);
}

/// The steps to do, in order. Written texts come first, then what is kept of
/// yours, then the mods, then everything that just moves.
pub fn steps(plan: &Plan) -> (r: Vec<Step>)
    ensures
        step_views(r@) == steps_of(plan@),
{
    let mut out: Vec<Step> = Vec::new();
    assert(step_views(out@) =~= Seq::empty());
    add_texts(plan, &mut out);
    add_yours(plan, &mut out);
    add_mods(plan, &mut out);
    add_carry(plan, &mut out);
    assert(step_views(out@) =~= file_steps(plan@));
    out.push(Step::Configure);
    out.push(Step::SaveState);
    out.push(Step::MoveIntoPlace);
    out.push(Step::JoinGroup);
    assert(step_views(out@) =~= steps_of(plan@));
    out
}

/// What to call a step.
pub open spec fn label_of(step: StepView) -> Seq<char> {
    match step {
        StepView::Write { rel, .. } => rel,
        StepView::Copy { rel } => rel,
        StepView::CopyIfPresent { rel } => rel,
        StepView::Leave { rel } => rel,
        StepView::Keep { file, .. } => file,
        StepView::Rename { to, .. } => to,
        _ => "finishing"@,
    }
}

impl Step {
    /// What to call the step while it is done.
    pub fn label(&self) -> (r: &str)
        ensures
            r@ == label_of(self@),
    {
        match self {
            Step::Write { rel, .. } => rel.as_str(),
            Step::Copy { rel } => rel.as_str(),
            Step::CopyIfPresent { rel } => rel.as_str(),
            Step::Leave { rel } => rel.as_str(),
            Step::Keep { file, .. } => file.as_str(),
            Step::Rename { to, .. } => to.as_str(),
            _ => "finishing",
        }
    }

    /// Whether the step counts in what is reported.
    fn is_counted(&self) -> (r: bool)
        ensures
            r == counted(self@),
    {
        match self {
            Step::Write { .. } => true,
            Step::Copy { .. } => true,
            Step::CopyIfPresent { .. } => true,
            Step::Leave { .. } => true,
            Step::Keep { .. } => true,
            _ => false,
        }
    }
}

// ---------------------------------------------------------------------------
// Going through the steps
// ---------------------------------------------------------------------------

/// A step about one of the files that a plan decides on.
pub open spec fn counted(step: StepView) -> bool {
    step is Write || step is Copy || step is CopyIfPresent || step is Leave || step is Keep
}

/// How many things a plan has to do, for the user: its files, and finishing.
pub open spec fn total_of(plan: PlanView) -> nat {
    plan.auto_merged.len() + plan.conflicts.len() + plan.keep_yours.len()
        + plan.binary_conflicts.len() + count(plan.mods.decisions, |d: DecisionView| d.keep)
        + carried_paths(plan.carry).len() + 1
}

/// What applying waits for.
#[derive(Debug, Clone, Copy, PartialEq, Eq, Structural)]
pub enum ApplyStage {
    /// The step to be done.
    Perform,
    /// To tell how far it has come.
    Report,
    /// To tell that only the move is left.
    Close,
    /// Nothing: everything is done.
    Done,
    /// Nothing: the user does not want to go on.
    Cancelled,
}

/// What applying wants.
#[derive(Debug)]
pub enum ApplyAction<'a> {
    /// Do this step.
    Perform(&'a Step),
    /// Tell the user that `done` of `total` things are done, and ask whether to go
    /// on.
    Report { done: usize, total: usize, label: &'a str },
    /// Nothing: the new instance is in place.
    Finish,
    /// Nothing: the user has cancelled.
    Cancelled,
}

/// What applying is told.
#[derive(Debug, Clone, Copy, PartialEq, Eq, Structural)]
pub enum ApplyEvent {
    /// The step is done.
    Performed,
    /// The report was made, and the user lets it go on or does not.
    Reported(bool),
}

/// A plan that is being applied, step by step. It says what it wants done, and is
/// told what came of it.
#[derive(Debug)]
pub struct Applying {
    steps: Vec<Step>,
    next: usize,
    done: usize,
    total: usize,
    stage: ApplyStage,
}

/// A plan that is being applied, as texts.
pub struct ApplyingView {
    pub steps: Seq<StepView>,
    pub next: int,
    pub done: int,
    pub total: int,
    pub stage: ApplyStage,
}

impl View for Applying {
    type V = ApplyingView;

    closed spec fn view(&self) -> ApplyingView {
        ApplyingView {
            steps: step_views(self.steps@),
            next: self.next as int,
            done: self.done as int,
            total: self.total as int,
            stage: self.stage,
        }
    }
}

/// Before anything is done.
pub open spec fn first_apply(plan: PlanView) -> ApplyingView {
    ApplyingView {
        steps: steps_of(plan),
        next: 0,
        done: 0,
        total: total_of(plan) as int,
        stage: ApplyStage::Perform,
    }
}

impl ApplyingView {
    pub open spec fn at(self, stage: ApplyStage) -> ApplyingView {
        ApplyingView { stage, ..self }
    }

    /// Behind the step it is at.
    pub open spec fn past(self) -> ApplyingView {
        ApplyingView {
            next: self.next + 1,
            stage: if self.next + 1 < self.steps.len() {
                ApplyStage::Perform
            } else {
                ApplyStage::Done
            },
            ..self
        }
    }

    /// Once it has been told. It reports at every [`APPLY_REPORT_EVERY`]th file and
    /// once the state is saved; the answer to that last report changes nothing.
    /// Nor does what it did not ask for.
    pub open spec fn told(self, e: ApplyEvent) -> ApplyingView {
        let step = self.steps[self.next];
        match (self.stage, e) {
            (ApplyStage::Perform, ApplyEvent::Performed) => if counted(step) {
                let now = ApplyingView { done: self.done + 1, ..self };
                if now.done % (APPLY_REPORT_EVERY as int) == 0 {
                    now.at(ApplyStage::Report)
                } else {
                    now.past()
                }
            } else if step is SaveState {
                self.at(ApplyStage::Close)
            } else {
                self.past()
            },
            (ApplyStage::Report, ApplyEvent::Reported(go_on)) => if go_on {
                self.past()
            } else {
                self.at(ApplyStage::Cancelled)
            },
            (ApplyStage::Close, ApplyEvent::Reported(_)) => self.past(),
            _ => self,
        }
    }
}

impl Applying {
    pub closed spec fn wf(self) -> bool {
        &&& self.next <= self.steps.len()
        &&& self.stage == ApplyStage::Perform ==> self.done <= self.next
        &&& self.done <= self.next + 1
        &&& self.stage == ApplyStage::Close ==> self.done <= self.next
        &&& (self.stage == ApplyStage::Perform || self.stage == ApplyStage::Report || self.stage
            == ApplyStage::Close) ==> self.next < self.steps.len()
    }

    /// What is to be done next.
    pub fn action(&self) -> (r: ApplyAction<'_>)
        requires
            self.wf(),
        ensures
            match self@.stage {
                ApplyStage::Perform => r matches ApplyAction::Perform(step) && step@
                    == self@.steps[self@.next],
                ApplyStage::Report => r matches ApplyAction::Report { done, total, label } && done
                    == self@.done && total == self@.total && label@ == label_of(
                    self@.steps[self@.next],
                ),
                ApplyStage::Close => r matches ApplyAction::Report { done, total, label } && done
                    == self@.total && total == self@.total && label@ == "finishing"@,
                ApplyStage::Done => r is Finish,
                ApplyStage::Cancelled => r is Cancelled,
            },
    {
        match self.stage {
            ApplyStage::Perform => {
                assert(self@.steps[self.next as int] == self.steps@[self.next as int]@);
                ApplyAction::Perform(&self.steps[self.next])
            },
            ApplyStage::Report => {
                assert(self@.steps[self.next as int] == self.steps@[self.next as int]@);
                ApplyAction::Report {
                    done: self.done,
                    total: self.total,
                    label: self.steps[self.next].label(),
                }
            },
            ApplyStage::Close => ApplyAction::Report {
                done: self.total,
                total: self.total,
                label: "finishing",
            },
            ApplyStage::Done => ApplyAction::Finish,
            ApplyStage::Cancelled => ApplyAction::Cancelled,
        }
    }

    fn go_on(&mut self)
        requires
            old(self).next < old(self).steps.len(),
            old(self).done <= old(self).next + 1,
        ensures
            final(self)@ == old(self)@.past(),
            final(self).wf(),
    {
        self.next = self.next + 1;
        self.stage = if self.next < self.steps.len() {
            ApplyStage::Perform
        } else {
            ApplyStage::Done
        };
    }

    /// Tell what came of it.
    pub fn tell(&mut self, e: ApplyEvent)
        requires
            old(self).wf(),
        ensures
            final(self).wf(),
            final(self)@ == old(self)@.told(e),
    {
        match (self.stage, e) {
            (ApplyStage::Perform, ApplyEvent::Performed) => {
                assert(self@.steps[self.next as int] == self.steps@[self.next as int]@);
                if self.steps[self.next].is_counted() {
                    self.done = self.done + 1;
                    if self.done % APPLY_REPORT_EVERY == 0 {
                        self.stage = ApplyStage::Report;
                    } else {
                        self.go_on();
                    }
                } else if let Step::SaveState = self.steps[self.next] {
                    self.stage = ApplyStage::Close;
                } else {
                    self.go_on();
                }
            },
            (ApplyStage::Report, ApplyEvent::Reported(go_on)) => {
                if go_on {
                    self.go_on();
                } else {
                    self.stage = ApplyStage::Cancelled;
                }
            },
            (ApplyStage::Close, ApplyEvent::Reported(_)) => {
                self.go_on();
            },
            _ => {},
        }
    }
}

fn count_steps(steps: &Vec<Step>) -> (r: usize)
    ensures
        r == count(step_views(steps@), |s: StepView| counted(s)),
        r <= steps.len(),
        steps.len() > 0 && !counted(steps@.last()@) ==> r < steps.len(),
{
    let mut n: usize = 0;
    let mut i: usize = 0;
    let ghost p = |s: StepView| counted(s);
    let ghost all = step_views(steps@);
    assert(all.take(0) =~= Seq::empty());
    while i < steps.len()
        invariant
            p == (|s: StepView| counted(s)),
            all == step_views(steps@),
            n <= i <= steps.len(),
            n == count(all.take(i as int), p),
            i > 0 && !counted(all[i - 1]) ==> n < i,
        decreases steps.len() - i,
    {
        proof {
            assert(all.take(i + 1).drop_last() =~= all.take(i as int));
            assert(all.take(i + 1).last() == steps@[i as int]@);
        }
        if steps[i].is_counted() {
            n += 1;
        }
        i += 1;
    }
    assert(all.take(i as int) =~= all);
    n
}

/// Apply every decision, then move the staged instance into place.
pub fn apply(plan: &Plan) -> (r: Applying)
    ensures
        r.wf(),
        r@ == first_apply(plan@),
{
    let steps = steps(plan);
    proof {
        lemma_total(plan@);
        assert(steps_of(plan@).last() == closing_steps()[3]);
        assert(step_views(steps@).last() == steps@.last()@);
    }
    let total = count_steps(&steps) + 1;
    Applying { steps, next: 0, done: 0, total, stage: ApplyStage::Perform }
}

// ---------------------------------------------------------------------------
// Places
// ---------------------------------------------------------------------------

pub open spec fn minecraft_in(dir: Seq<char>) -> Seq<char> {
    path_in(dir, ".minecraft"@)
}

/// The file of the game that a step writes.
pub open spec fn writes_to(step: StepView) -> Option<Seq<char>> {
    match step {
        StepView::Write { rel, .. } => Some(rel),
        StepView::Copy { rel } => Some(rel),
        StepView::CopyIfPresent { rel } => Some(rel),
        StepView::Leave { .. } => None,
        StepView::Keep { rel, .. } => Some(rel),
        StepView::Rename { to, .. } => Some(to),
        _ => None,
    }
}

impl<'a> ApplyInput<'a> {
    /// Where a file of the staged instance stands.
    pub fn staged(&self, rel: &str) -> (r: String)
        ensures
            r@ == path_in(minecraft_in(self.staging@), rel@),
    {
        join_path(join_path(self.staging, ".minecraft").as_str(), rel)
    }

    /// Where a file of the old instance stands.
    pub fn original(&self, rel: &str) -> (r: String)
        ensures
            r@ == path_in(minecraft_in(self.old_instance@), rel@),
    {
        join_path(join_path(self.old_instance, ".minecraft").as_str(), rel)
    }

    /// Where the new instance ends up.
    pub fn final_dir(&self) -> (r: String)
        ensures
            r@ == path_in(self.instances_root@, self.final_name@),
    {
        join_path(self.instances_root, self.final_name)
    }
}

// ---------------------------------------------------------------------------
// Launch settings
// ---------------------------------------------------------------------------

/// The file endings an icon can have, in the order in which they are tried.
pub open spec fn icon_ending(n: int) -> Seq<char> {
    if n == 0 {
        ".png"@
    } else if n == 1 {
        ".jpg"@
    } else if n == 2 {
        ".jpeg"@
    } else if n == 3 {
        ".ico"@
    } else {
        ".svg"@
    }
}

fn ending(n: usize) -> (r: &'static str)
    ensures
        r@ == icon_ending(n as int),
{
    if n == 0 {
        ".png"
    } else if n == 1 {
        ".jpg"
    } else if n == 2 {
        ".jpeg"
    } else if n == 3 {
        ".ico"
    } else {
        ".svg"
    }
}

/// The settings of the new instance, with the user's icon where there is one.
pub open spec fn cfg_with_icon(
    merged: Seq<LineView>,
    key: Option<Seq<char>>,
    found: bool,
) -> Seq<LineView> {
    match key {
        Some(k) => if found {
            with_value(merged, "General"@, "iconKey"@, k)
        } else {
            merged
        },
        None => merged,
    }
}

/// Start from the pack's `instance.cfg`, overlay the old instance's Java and
/// launch settings, and carry a custom icon across if there is one. Gives the new
/// file and the icon to copy; `has_file` says whether the old instance directory
/// has a file of that name.
pub fn instance_cfg<F: Fn(&str) -> bool>(
    pack_cfg: &Ini,
    old_cfg: &Ini,
    display_name: &str,
    uuid: &str,
    has_file: F,
) -> (r: (Ini, Option<String>))
    requires
        forall|s: &str| #[trigger] call_requires(has_file, (s,)),
    ensures
        r.0@ == cfg_with_icon(
            merged_cfg(pack_cfg@, old_cfg@, display_name@, uuid@),
            value_of(old_cfg@, "General"@, "iconKey"@),
            r.1 is Some,
        ),
        r.1 matches Some(icon) ==> {
            &&& value_of(old_cfg@, "General"@, "iconKey"@) is Some
            &&& answered(has_file, icon@, true)
            &&& exists|n: int|
                {
                    &&& 0 <= n < 5
                    &&& icon@ == value_of(old_cfg@, "General"@, "iconKey"@)->0
                        + #[trigger] icon_ending(n)
                    &&& forall|k: int|
                        0 <= k < n ==> answered(
                            has_file,
                            value_of(old_cfg@, "General"@, "iconKey"@)->0 + #[trigger] icon_ending(
                                k,
                            ),
                            false,
                        )
                }
        },
        r.1 is None && value_of(old_cfg@, "General"@, "iconKey"@) is Some ==> forall|k: int|
            0 <= k < 5 ==> answered(
                has_file,
                value_of(old_cfg@, "General"@, "iconKey"@)->0 + #[trigger] icon_ending(k),
                false,
            ),
{
    let mut merged = merge_instance_cfg(pack_cfg, old_cfg, display_name, uuid);
    // Instance-local icons live next to instance.cfg; keep the user's if they set one.
    if let Some(icon_key) = old_cfg.get("General", "iconKey") {
        let mut n: usize = 0;
        while n < 5
            invariant
                n <= 5,
                merged@ == merged_cfg(pack_cfg@, old_cfg@, display_name@, uuid@),
                value_of(old_cfg@, "General"@, "iconKey"@) == Some(icon_key@),
                forall|s: &str| #[trigger] call_requires(has_file, (s,)),
                forall|k: int|
                    0 <= k < n ==> answered(has_file, icon_key@ + #[trigger] icon_ending(k), false),
            decreases 5 - n,
        {
            let mut name = icon_key.clone();
            name.append(ending(n));
            let found = has_file(name.as_str());
            assert(name@ == icon_key@ + icon_ending(n as int));
            assert(answered(has_file, name@, found));
            if found {
                merged.set("General", "iconKey", icon_key.as_str());
                return (merged, Some(name));
            }
            n += 1;
        }
    }
    (merged, None)
}

// ---------------------------------------------------------------------------
// Laws
// ---------------------------------------------------------------------------

/// The plan asks for this step. What is done once the files are there is always
/// asked for.
pub open spec fn asks_for(plan: PlanView, s: StepView) -> bool {
    match s {
        StepView::Write { rel, text } => {
            ||| plan.auto_merged.contains((rel, text))
            ||| exists|c: ConflictView| #[trigger]
                plan.conflicts.contains(c) && c.rel == rel && c.merge.rendered() == text
        },
        StepView::Copy { rel } => {
            ||| plan.keep_yours.contains(rel)
            ||| exists|c: BinaryView| #[trigger]
                plan.binary_conflicts.contains(c) && c.rel == rel && !c.take_pack
        },
        StepView::CopyIfPresent { rel } => exists|g: CarryView| #[trigger]
            plan.carry.contains(g) && g.enabled && g.files.contains(rel),
        StepView::Leave { rel } => exists|c: BinaryView| #[trigger]
            plan.binary_conflicts.contains(c) && c.rel == rel && c.take_pack,
        StepView::Keep { rel, file } => exists|d: DecisionView| #[trigger]
            plan.mods.decisions.contains(d) && d.keep && d.rel == rel && d.file == file,
        StepView::Rename { from, to } => exists|c: StateChangeView| #[trigger]
            plan.mods.state_changes.contains(c) && c.rel == from && switched(c.rel, c.enable) == to,
        _ => true,
    }
}

/// Every decision of the plan is applied, and nothing else is done. There are as
/// many steps as there are merged files, conflicts, files of yours and binary
/// conflicts, mods that are kept, mods that are switched and files that are
/// carried over, and four to close with.
pub proof fn law_every_decision_is_applied(plan: PlanView)
    ensures
        steps_of(plan).len() == plan.auto_merged.len() + plan.conflicts.len()
            + plan.keep_yours.len() + plan.binary_conflicts.len() + count(
            plan.mods.decisions,
            |d: DecisionView| d.keep,
        ) + plan.mods.state_changes.len() + carried_paths(plan.carry).len() + 4,
        forall|s: StepView| #[trigger] steps_of(plan).contains(s) <==> asks_for(plan, s),
{
    lemma_kept(plan.mods.decisions);
    assert forall|s: StepView| #[trigger] steps_of(plan).contains(s) <==> asks_for(plan, s) by {
        lemma_parts(plan, s);
        lemma_asked(plan, s);
    }
}

proof fn lemma_in_sum<T>(a: Seq<T>, b: Seq<T>, x: T)
    ensures
        (a + b).contains(x) <==> a.contains(x) || b.contains(x),
{
    if a.contains(x) {
        assert((a + b)[a.index_of(x)] == x);
    }
    if b.contains(x) {
        assert((a + b)[a.len() + b.index_of(x)] == x);
    }
    if (a + b).contains(x) {
        let i = (a + b).index_of(x);
        if i < a.len() {
            assert(a[i] == x);
        } else {
            assert(b[i - a.len()] == x);
        }
    }
}

/// A step is one of the list if it is one of its parts.
proof fn lemma_parts(plan: PlanView, s: StepView)
    ensures
        steps_of(plan).contains(s) <==> (merged_steps(plan).contains(s) || conflict_steps(
            plan,
        ).contains(s) || yours_steps(plan).contains(s) || binary_steps(plan).contains(s)
            || keep_steps(plan).contains(s) || switch_steps(plan).contains(s) || carry_steps(
            plan,
        ).contains(s) || closing_steps().contains(s)),
{
    let p2 = merged_steps(plan) + conflict_steps(plan);
    let p3 = p2 + yours_steps(plan);
    let p4 = p3 + binary_steps(plan);
    let p5 = p4 + keep_steps(plan);
    let p6 = p5 + switch_steps(plan);
    lemma_in_sum(merged_steps(plan), conflict_steps(plan), s);
    lemma_in_sum(p2, yours_steps(plan), s);
    lemma_in_sum(p3, binary_steps(plan), s);
    lemma_in_sum(p4, keep_steps(plan), s);
    lemma_in_sum(p5, switch_steps(plan), s);
    lemma_in_sum(p6, carry_steps(plan), s);
    lemma_in_sum(file_steps(plan), closing_steps(), s);
}

proof fn lemma_mapped<A, B>(items: Seq<A>, f: spec_fn(A) -> B, x: B)
    ensures
        items.map_values(f).contains(x) <==> exists|a: A| #[trigger] items.contains(a) && f(a) == x,
{
    let out = items.map_values(f);
    if out.contains(x) {
        let i = out.index_of(x);
        assert(items.contains(items[i]) && f(items[i]) == x);
    }
    if exists|a: A| #[trigger] items.contains(a) && f(a) == x {
        let a = choose|a: A| #[trigger] items.contains(a) && f(a) == x;
        assert(out[items.index_of(a)] == x);
    }
}

proof fn lemma_carried_paths(groups: Seq<CarryView>, rel: Seq<char>)
    ensures
        carried_paths(groups).contains(rel) <==> exists|g: CarryView| #[trigger]
            groups.contains(g) && g.enabled && g.files.contains(rel),
    decreases groups.len(),
{
    if groups.len() > 0 {
        let short = groups.drop_last();
        let last = groups.last();
        lemma_carried_paths(short, rel);
        lemma_in_sum(
            carried_paths(short),
            if last.enabled {
                last.files
            } else {
                Seq::empty()
            },
            rel,
        );
        assert(groups[groups.len() - 1] == last);
        if carried_paths(short).contains(rel) {
            let g = choose|g: CarryView| #[trigger]
                short.contains(g) && g.enabled && g.files.contains(rel);
            assert(groups[short.index_of(g)] == g);
            assert(groups.contains(g) && g.enabled && g.files.contains(rel));
        }
        if last.enabled && last.files.contains(rel) {
            assert(groups.contains(last) && last.enabled && last.files.contains(rel));
        }
        if exists|g: CarryView| #[trigger] groups.contains(g) && g.enabled && g.files.contains(rel) {
            let g = choose|g: CarryView| #[trigger]
                groups.contains(g) && g.enabled && g.files.contains(rel);
            let i = groups.index_of(g);
            if i < short.len() {
                assert(short[i] == g);
                assert(short.contains(g) && g.enabled && g.files.contains(rel));
            }
        }
    }
}

proof fn lemma_asked(plan: PlanView, s: StepView)
    ensures
        (merged_steps(plan).contains(s) || conflict_steps(plan).contains(s) || yours_steps(
            plan,
        ).contains(s) || binary_steps(plan).contains(s) || keep_steps(plan).contains(s)
            || switch_steps(plan).contains(s) || carry_steps(plan).contains(s)
            || closing_steps().contains(s)) <==> asks_for(plan, s),
{
    let all = closing_steps();
    assert(all[0] == StepView::Configure && all[1] == StepView::SaveState && all[2]
        == StepView::MoveIntoPlace && all[3] == StepView::JoinGroup);
    let keep = |d: DecisionView| keep_step(d);
    lemma_mapped(plan.auto_merged, |m: (Seq<char>, Seq<char>)| merged_step(m), s);
    lemma_mapped(plan.conflicts, |c: ConflictView| conflict_step(c), s);
    lemma_mapped(plan.keep_yours, |rel: Seq<char>| (StepView::Copy { rel }), s);
    lemma_mapped(plan.binary_conflicts, |c: BinaryView| binary_step(c), s);
    lemma_mapped(plan.mods.state_changes, |c: StateChangeView| switch_step(c), s);
    lemma_mapped(carried_paths(plan.carry), |rel: Seq<char>| (StepView::CopyIfPresent { rel }), s);
    crate::mods::lemma_collected(plan.mods.decisions, keep);
    assert(keep_steps(plan) == collected(plan.mods.decisions, keep));
    match s {
        StepView::CopyIfPresent { rel } => {
            lemma_carried_paths(plan.carry, rel);
        },
        StepView::Keep { rel, file } => {
            if keep_steps(plan).contains(s) {
                let d = choose|d: DecisionView|
                    plan.mods.decisions.contains(d) && #[trigger] keep(d) == Some(s);
                assert(keep_step(d) == Some(s));
            }
            if asks_for(plan, s) {
                let d = choose|d: DecisionView| #[trigger]
                    plan.mods.decisions.contains(d) && d.keep && d.rel == rel && d.file == file;
                assert(keep(d) == Some(s));
            }
        },
        StepView::Write { rel, text } => {
            if plan.auto_merged.contains((rel, text)) {
                assert(merged_step((rel, text)) == s);
            }
        },
        _ => {},
    }
    if keep_steps(plan).contains(s) {
        let d = choose|d: DecisionView|
            plan.mods.decisions.contains(d) && #[trigger] keep(d) == Some(s);
        assert(keep_step(d) == Some(s));
    }
}

proof fn lemma_total(plan: PlanView)
    ensures
        count(steps_of(plan), |s: StepView| counted(s)) + 1 == total_of(plan),
{
    let p = |s: StepView| counted(s);
    let p2 = merged_steps(plan) + conflict_steps(plan);
    let p3 = p2 + yours_steps(plan);
    let p4 = p3 + binary_steps(plan);
    let p5 = p4 + keep_steps(plan);
    let p6 = p5 + switch_steps(plan);
    lemma_count_sum(merged_steps(plan), conflict_steps(plan), p);
    lemma_count_sum(p2, yours_steps(plan), p);
    lemma_count_sum(p3, binary_steps(plan), p);
    lemma_count_sum(p4, keep_steps(plan), p);
    lemma_count_sum(p5, switch_steps(plan), p);
    lemma_count_sum(p6, carry_steps(plan), p);
    lemma_count_sum(file_steps(plan), closing_steps(), p);
    lemma_count_all(merged_steps(plan), p);
    lemma_count_all(conflict_steps(plan), p);
    lemma_count_all(yours_steps(plan), p);
    lemma_count_all(binary_steps(plan), p);
    lemma_count_all(carry_steps(plan), p);
    lemma_count_none(switch_steps(plan), p);
    lemma_count_none(closing_steps(), p);
    let keep = |d: DecisionView| keep_step(d);
    let kept = keep_steps(plan);
    crate::mods::lemma_collected(plan.mods.decisions, keep);
    assert(kept == collected(plan.mods.decisions, keep));
    assert forall|i: int| 0 <= i < kept.len() implies p(#[trigger] kept[i]) by {
        assert(kept.contains(kept[i]));
        let d = choose|d: DecisionView|
            plan.mods.decisions.contains(d) && #[trigger] keep(d) == Some(kept[i]);
        assert(keep_step(d) == Some(kept[i]));
    }
    lemma_count_all(kept, p);
    lemma_kept(plan.mods.decisions);
}

/// How many of the first `n` steps count in what is reported.
pub open spec fn counted_to(steps: Seq<StepView>, n: int) -> int {
    count(steps.take(n), |s: StepView| counted(s)) as int
}

/// Applying stands at a step with as many files behind it as it says, and reports
/// where their number is a multiple of [`APPLY_REPORT_EVERY`].
pub open spec fn keeps_count(s: ApplyingView) -> bool {
    match s.stage {
        ApplyStage::Perform => 0 <= s.next < s.steps.len() && s.done == counted_to(s.steps, s.next),
        ApplyStage::Report => 0 <= s.next < s.steps.len() && counted(s.steps[s.next]) && s.done
            == counted_to(s.steps, s.next + 1) && s.done % (APPLY_REPORT_EVERY as int) == 0,
        ApplyStage::Close => 0 <= s.next < s.steps.len() && s.steps[s.next] is SaveState && s.done
            == counted_to(s.steps, s.next),
        ApplyStage::Done => s.next == s.steps.len() && s.done == counted_to(s.steps, s.next),
        ApplyStage::Cancelled => 0 <= s.next < s.steps.len() && counted(s.steps[s.next]) && s.done
            == counted_to(s.steps, s.next + 1) && s.done % (APPLY_REPORT_EVERY as int) == 0,
    }
}

/// What applying has come to after it has been told of these events.
pub open spec fn after_told(s: ApplyingView, events: Seq<ApplyEvent>) -> ApplyingView
    decreases events.len(),
{
    if events.len() == 0 {
        s
    } else {
        after_told(s, events.drop_last()).told(events.last())
    }
}

proof fn lemma_keeps_count(s: ApplyingView, e: ApplyEvent)
    requires
        keeps_count(s),
    ensures
        keeps_count(s.told(e)),
        s.told(e).steps == s.steps,
        s.told(e).total == s.total,
{
    if 0 <= s.next < s.steps.len() {
        let now = s.steps.take(s.next + 1);
        assert(now.drop_last() =~= s.steps.take(s.next));
        assert(now.last() == s.steps[s.next]);
    }
}

/// Whatever it is told, applying goes through the steps of the plan in order and
/// counts the files behind it, and it is cancelled only where it reports.
pub proof fn law_applying_counts_its_files(plan: PlanView, events: Seq<ApplyEvent>)
    ensures
        ({
            let s = after_told(first_apply(plan), events);
            &&& keeps_count(s)
            &&& s.steps == steps_of(plan)
            &&& s.total == total_of(plan)
        }),
    decreases events.len(),
{
    let s = first_apply(plan);
    if events.len() > 0 {
        law_applying_counts_its_files(plan, events.drop_last());
        lemma_keeps_count(after_told(s, events.drop_last()), events.last());
    } else {
        assert(s.steps.take(0) =~= Seq::empty());
    }
}

/// A refusal at a report ends it for good, so that nothing is moved into place. At
/// the last report, when everything is written, the answer changes nothing.
pub proof fn law_only_a_refusal_cancels_applying(s: ApplyingView, e: ApplyEvent)
    ensures
        s.told(e).stage == ApplyStage::Cancelled <==> s.stage == ApplyStage::Cancelled || (s.stage
            == ApplyStage::Report && e == ApplyEvent::Reported(false)),
        s.stage == ApplyStage::Cancelled ==> s.told(e) == s,
        s.stage == ApplyStage::Close && e is Reported ==> s.told(e) == s.past(),
{
}

/// Applying when every step succeeds and nobody refuses, after `n` answers.
pub open spec fn unhindered(s: ApplyingView, n: nat) -> ApplyingView
    decreases n,
{
    if n == 0 {
        s
    } else {
        let so_far = unhindered(s, (n - 1) as nat);
        so_far.told(
            if so_far.stage == ApplyStage::Perform {
                ApplyEvent::Performed
            } else {
                ApplyEvent::Reported(true)
            },
        )
    }
}

/// How many answers can still change something.
spec fn left_to_tell(s: ApplyingView) -> int {
    2 * (s.steps.len() - s.next) - if s.stage == ApplyStage::Perform || s.stage
        == ApplyStage::Done {
        0int
    } else {
        1int
    }
}

proof fn lemma_unhindered(s: ApplyingView, n: nat)
    requires
        keeps_count(s),
        s.stage != ApplyStage::Cancelled,
    ensures
        ({
            let now = unhindered(s, n);
            &&& keeps_count(now)
            &&& now.steps == s.steps
            &&& now.stage != ApplyStage::Cancelled
            &&& now.stage == ApplyStage::Done || left_to_tell(now) <= left_to_tell(s) - n
        }),
    decreases n,
{
    if n > 0 {
        lemma_unhindered(s, (n - 1) as nat);
        let so_far = unhindered(s, (n - 1) as nat);
        lemma_keeps_count(
            so_far,
            if so_far.stage == ApplyStage::Perform {
                ApplyEvent::Performed
            } else {
                ApplyEvent::Reported(true)
            },
        );
    }
}

/// Where every step succeeds and nobody refuses, every step is done: two answers for
/// each are enough.
pub proof fn law_applying_comes_to_an_end(plan: PlanView)
    ensures
        ({
            let end = unhindered(first_apply(plan), 2 * steps_of(plan).len());
            &&& end.stage == ApplyStage::Done
            &&& end.next == steps_of(plan).len()
            &&& end.done + 1 == end.total
        }),
{
    let s = first_apply(plan);
    let n = 2 * steps_of(plan).len();
    law_applying_counts_its_files(plan, Seq::empty());
    lemma_unhindered(s, n);
    lemma_kept_total(s, n);
    lemma_total(plan);
    assert(s.steps.take(s.steps.len() as int) =~= s.steps);
}

proof fn lemma_kept_total(s: ApplyingView, n: nat)
    ensures
        unhindered(s, n).total == s.total,
    decreases n,
{
    if n > 0 {
        lemma_kept_total(s, (n - 1) as nat);
    }
}

/// The staged instance is moved into place only once everything has been written:
/// the move is done once, and nothing but joining the group comes after it.
pub proof fn law_moving_into_place_comes_last(plan: PlanView)
    ensures
        ({
            let all = steps_of(plan);
            let at = all.len() - 2;
            &&& all[at] == StepView::MoveIntoPlace
            &&& all[at + 1] == StepView::JoinGroup
            &&& forall|i: int| 0 <= i < all.len() && i != at ==> all[i] != StepView::MoveIntoPlace
            &&& forall|i: int|
                0 <= i < all.len() && writes_to(#[trigger] all[i]) is Some ==> i < at
        }),
{
    let all = steps_of(plan);
    let files = file_steps(plan);
    let at = all.len() - 2;
    let n = files.len() as int;
    assert(all[n] == StepView::Configure && all[n + 1] == StepView::SaveState && all[n + 2]
        == StepView::MoveIntoPlace && all[n + 3] == StepView::JoinGroup);
    assert forall|i: int| 0 <= i < all.len() && i != at implies all[i]
        != StepView::MoveIntoPlace by {
        if i < n {
            assert(all[i] == files[i]);
            lemma_file_step(plan, i);
        }
    }
}

proof fn lemma_file_step(plan: PlanView, i: int)
    requires
        0 <= i < file_steps(plan).len(),
    ensures
        file_steps(plan)[i] != StepView::MoveIntoPlace,
{
    let keep = |d: DecisionView| keep_step(d);
    let s = file_steps(plan)[i];
    let p2 = merged_steps(plan) + conflict_steps(plan);
    let p3 = p2 + yours_steps(plan);
    let p4 = p3 + binary_steps(plan);
    let p5 = p4 + keep_steps(plan);
    if p4.len() <= i < p5.len() {
        crate::mods::lemma_collected(plan.mods.decisions, keep);
        assert(keep_steps(plan) == collected(plan.mods.decisions, keep));
        assert(keep_steps(plan)[i - p4.len()] == s);
        assert(keep_steps(plan).contains(s));
        let d = choose|d: DecisionView|
            plan.mods.decisions.contains(d) && #[trigger] keep(d) == Some(s);
        assert(keep_step(d) == Some(s));
    }
}

/// Everything else just moves: a file that only the old instance has, and that is
/// neither a jar nor noise, is copied as it is.
pub proof fn law_user_data_is_copied(
    plan: PlanView,
    ours: Seq<(Seq<char>, u64)>,
    theirs: Seq<Seq<char>>,
    rel: Seq<char>,
)
    requires
        plan.carry == carry_of(ours, theirs),
        entry_keys(ours).contains(rel),
        is_carried(rel, theirs),
    ensures
        steps_of(plan).contains(StepView::CopyIfPresent { rel }),
{
    crate::plan::law_everything_else_just_moves(ours, theirs, rel, group_of(rel));
    let g = choose|g: CarryView|
        #![trigger carry_of(ours, theirs).contains(g)]
        carry_of(ours, theirs).contains(g) && g.name == group_of(rel) && g.files.contains(rel);
    assert(g.enabled);
    let step = StepView::CopyIfPresent { rel };
    assert(plan.carry.contains(g) && g.enabled && g.files.contains(rel));
    assert(asks_for(plan, step));
    law_every_decision_is_applied(plan);
    assert(steps_of(plan).contains(step) <==> asks_for(plan, step));
}

proof fn lemma_kept(decisions: Seq<DecisionView>)
    ensures
        collected(decisions, |d: DecisionView| keep_step(d)).len() == count(
            decisions,
            |d: DecisionView| d.keep,
        ),
    decreases decisions.len(),
{
    if decisions.len() > 0 {
        lemma_kept(decisions.drop_last());
    }
}

/// The instance that is updated is never written to: what a step writes lies in
/// the staged instance, whatever the step is.
pub proof fn law_only_the_staged_instance_is_written(
    staging: Seq<char>,
    plan: PlanView,
    step: StepView,
    rel: Seq<char>,
)
    requires
        staging.len() > 0,
        steps_of(plan).contains(step),
        writes_to(step) == Some(rel),
        rel.len() > 0 && rel[0] != '/',
    ensures
        ({
            let path = path_in(minecraft_in(staging), rel);
            &&& path.len() > staging.len()
            &&& path.take(staging.len() as int) == staging
            &&& staging.last() == '/' || path[staging.len() as int] == '/'
        }),
{
    reveal_strlit(".minecraft");
    let path = path_in(minecraft_in(staging), rel);
    assert(path.take(staging.len() as int) =~= staging);
}

/// A mod that is switched keeps its name but for the suffix that turns it off,
/// and has it exactly if it is to be off.
pub proof fn law_switching_changes_the_state_alone(rel: Seq<char>, enable: bool)
    requires
        strip_suffix(rel, ".disabled"@) is Some <==> enable,
    ensures
        enable ==> switched(rel, enable) + ".disabled"@ == rel,
        !enable ==> strip_suffix(switched(rel, enable), ".disabled"@) == Some(rel),
{
    let d = ".disabled"@;
    if enable {
        assert(switched(rel, enable) + d =~= rel);
    } else {
        let out = rel + d;
        assert(out.skip(out.len() - d.len()) =~= d);
        assert(out.take(out.len() - d.len()) =~= rel);
    }
}

/// A mod is turned off by the suffix `.disabled` behind its path, and turned on by
/// taking that suffix off; a file that is on already keeps its path.
pub proof fn law_the_suffix_turns_a_mod_off(path: Seq<char>)
    ensures
        switched(path, false) == path + ".disabled"@,
        switched(path + ".disabled"@, true) == path,
        !".disabled"@.is_suffix_of(path) ==> switched(path, true) == path,
{
    crate::text::law_stripping(path, ".disabled"@);
}

/// The place of a step among the others: first the texts that are written, then what
/// is copied or left because it is yours or no text, then the mods that are kept, the
/// ones that are switched, and last what just moves.
pub open spec fn rank_of(step: StepView) -> int {
    match step {
        StepView::Write { .. } => 0,
        StepView::Copy { .. } => 1,
        StepView::Leave { .. } => 1,
        StepView::Keep { .. } => 2,
        StepView::Rename { .. } => 3,
        StepView::CopyIfPresent { .. } => 4,
        StepView::Configure => 5,
        StepView::SaveState => 6,
        StepView::MoveIntoPlace => 7,
        StepView::JoinGroup => 8,
    }
}

proof fn lemma_rank(plan: PlanView, i: int)
    requires
        0 <= i < steps_of(plan).len(),
    ensures
        ({
            let a = merged_steps(plan).len() + conflict_steps(plan).len();
            let b = a + yours_steps(plan).len() + binary_steps(plan).len();
            let c = b + keep_steps(plan).len();
            let d = c + switch_steps(plan).len();
            let e = d + carry_steps(plan).len();
            rank_of(steps_of(plan)[i]) == if i < a {
                0int
            } else if i < b {
                1int
            } else if i < c {
                2int
            } else if i < d {
                3int
            } else if i < e {
                4int
            } else {
                5 + (i - e)
            }
        }),
{
    let keep = |d: DecisionView| keep_step(d);
    let s = steps_of(plan)[i];
    let p2 = merged_steps(plan) + conflict_steps(plan);
    let p4 = p2 + yours_steps(plan) + binary_steps(plan);
    let p5 = p4 + keep_steps(plan);
    if p4.len() <= i < p5.len() {
        crate::mods::lemma_collected(plan.mods.decisions, keep);
        assert(keep_steps(plan) == collected(plan.mods.decisions, keep));
        assert(keep_steps(plan)[i - p4.len()] == s);
        assert(keep_steps(plan).contains(s));
        let d = choose|d: DecisionView|
            plan.mods.decisions.contains(d) && #[trigger] keep(d) == Some(s);
        assert(keep_step(d) == Some(s));
    }
    if i >= file_steps(plan).len() {
        assert(s == closing_steps()[i - file_steps(plan).len()]);
    }
}

/// No step comes in front of one that has to come earlier, and each of the four that
/// close comes once: the settings, the state, the move, the group.
pub proof fn law_steps_come_in_order(plan: PlanView, i: int, j: int)
    requires
        0 <= i < j < steps_of(plan).len(),
    ensures
        rank_of(steps_of(plan)[i]) <= rank_of(steps_of(plan)[j]),
        rank_of(steps_of(plan)[i]) >= 5 ==> rank_of(steps_of(plan)[i]) < rank_of(
            steps_of(plan)[j],
        ),
        ({
            let n = steps_of(plan).len();
            &&& n >= 4
            &&& steps_of(plan)[n - 4] == StepView::Configure
            &&& steps_of(plan)[n - 3] == StepView::SaveState
            &&& steps_of(plan)[n - 2] == StepView::MoveIntoPlace
            &&& steps_of(plan)[n - 1] == StepView::JoinGroup
        }),
{
    lemma_rank(plan, i);
    lemma_rank(plan, j);
    let n = file_steps(plan).len() as int;
    let all = steps_of(plan);
    assert(all[n] == closing_steps()[0] && all[n + 1] == closing_steps()[1] && all[n + 2]
        == closing_steps()[2] && all[n + 3] == closing_steps()[3]);
}

/// The files of one list are done in the order of the list.
pub proof fn law_lists_keep_their_order(plan: PlanView, i: int)
    ensures
        0 <= i < plan.auto_merged.len() ==> steps_of(plan)[i] == (StepView::Write {
            rel: plan.auto_merged[i].0,
            text: plan.auto_merged[i].1,
        }),
        0 <= i < plan.conflicts.len() ==> steps_of(plan)[plan.auto_merged.len() + i] == (
        StepView::Write {
            rel: plan.conflicts[i].rel,
            text: plan.conflicts[i].merge.rendered(),
        }),
        0 <= i < plan.keep_yours.len() ==> steps_of(plan)[plan.auto_merged.len()
            + plan.conflicts.len() + i] == (StepView::Copy { rel: plan.keep_yours[i] }),
{
}

/// Applying reports behind every thirty-second file that is done, and once when the
/// state is saved; in between it goes from step to step.
pub proof fn law_reports_come_at_even_distances(s: ApplyingView)
    requires
        s.stage == ApplyStage::Perform,
        0 <= s.next < s.steps.len(),
    ensures
        ({
            let step = s.steps[s.next];
            let file = rank_of(step) <= 2 || rank_of(step) == 4;
            let now = s.told(ApplyEvent::Performed);
            &&& file ==> now.done == s.done + 1
            &&& !file ==> now.done == s.done
            &&& now.stage == ApplyStage::Report <==> file && (s.done + 1) % 32 == 0
            &&& now.stage == ApplyStage::Close <==> step == StepView::SaveState
            &&& now.stage == ApplyStage::Perform || now.stage == ApplyStage::Done ==> now.next
                == s.next + 1
        }),
{
}

/// What the user is told of a step: the file that it is about, under its new name
/// where it gets one.
pub proof fn law_a_step_is_called_by_its_file(rel: Seq<char>, other: Seq<char>)
    ensures
        label_of(StepView::Write { rel, text: other }) == rel,
        label_of(StepView::Copy { rel }) == rel,
        label_of(StepView::CopyIfPresent { rel }) == rel,
        label_of(StepView::Leave { rel }) == rel,
        label_of(StepView::Keep { rel, file: other }) == other,
        label_of(StepView::Rename { from: rel, to: other }) == other,
        label_of(StepView::SaveState) == "finishing"@,
{
}

/// The icon that goes with the settings: the user's own icon is set where a file of it
/// was found, and changes nothing else; else the setting stays as it was.
pub proof fn law_an_icon_changes_its_own_setting_alone(
    merged: Seq<LineView>,
    icon: Seq<char>,
    section: Seq<char>,
    key: Seq<char>,
)
    ensures
        value_of(cfg_with_icon(merged, Some(icon), true), "General"@, "iconKey"@) == Some(icon),
        section != "General"@ || key != "iconKey"@ ==> value_of(
            cfg_with_icon(merged, Some(icon), true),
            section,
            key,
        ) == value_of(merged, section, key),
        cfg_with_icon(merged, Some(icon), false) == merged,
        cfg_with_icon(merged, None, false) == merged,
{
    crate::ini::law_set_is_read_back(merged, "General"@, "iconKey"@, icon);
}

/// The endings under which an icon is looked for, in this order.
pub proof fn law_icons_have_one_of_five_endings()
    ensures
        icon_ending(0) == ".png"@,
        icon_ending(1) == ".jpg"@,
        icon_ending(2) == ".jpeg"@,
        icon_ending(3) == ".ico"@,
        icon_ending(4) == ".svg"@,
{
}

/// Where the files of the two instances stand, and where the new one ends up.
pub proof fn law_where_files_stand(
    input: ApplyInput<'_>,
    rel: &str,
    staged: String,
    original: String,
    end: String,
)
    requires
        call_ensures(ApplyInput::staged, (&input, rel), staged),
        call_ensures(ApplyInput::original, (&input, rel), original),
        call_ensures(ApplyInput::final_dir, (&input,), end),
    ensures
        staged@ == path_in(path_in(input.staging@, ".minecraft"@), rel@),
        original@ == path_in(path_in(input.old_instance@, ".minecraft"@), rel@),
        end@ == path_in(input.instances_root@, input.final_name@),
        minecraft_in(rel@) == path_in(rel@, ".minecraft"@),
{
}

/// The steps of a plan end with the settings, the state, the move and the group, in this
/// order, each once; applying starts in front of all of them.
pub proof fn law_how_the_steps_end(plan: Plan, all: Vec<Step>, start: Applying, i: int)
    requires
        call_ensures(steps, (&plan,), all),
        call_ensures(apply, (&plan,), start),
    ensures
        all.len() >= 4,
        all@[all.len() - 4]@ == StepView::Configure,
        all@[all.len() - 3]@ == StepView::SaveState,
        all@[all.len() - 2]@ == StepView::MoveIntoPlace,
        all@[all.len() - 1]@ == StepView::JoinGroup,
        0 <= i < all.len() - 4 ==> rank_of(all@[i]@) < 5,
        start@.steps.len() == all.len(),
        0 <= i < all.len() ==> start@.steps[i] == all@[i]@,
        start@.next == 0 && start@.done == 0,
{
    let seen = step_views(all@);
    assert(steps_of(plan@).len() >= 4);
    let n = seen.len() as int;
    law_steps_come_in_order(plan@, n - 2, n - 1);
    assert(seen[n - 4] == all@[n - 4]@ && seen[n - 3] == all@[n - 3]@ && seen[n - 2] == all@[n
        - 2]@ && seen[n - 1] == all@[n - 1]@);
    if 0 <= i < n - 4 {
        law_steps_come_in_order(plan@, i, n - 4);
        assert(seen[i] == all@[i]@);
    }
    if 0 <= i < n {
        assert(seen[i] == all@[i]@);
    }
}

/// What applying asks for: the step it has come to, and reports that count to the number
/// of files and end there.
pub proof fn law_what_applying_asks_for(s: Applying, r: ApplyAction<'_>)
    requires
        call_ensures(Applying::action, (&s,), r),
    ensures
        r matches ApplyAction::Perform(step) ==> step@ == s@.steps[s@.next],
        r is Perform <==> s@.stage == ApplyStage::Perform,
        r matches ApplyAction::Report { done, total, label } ==> total == s@.total,
        r is Report <==> s@.stage == ApplyStage::Report || s@.stage == ApplyStage::Close,
        s@.stage == ApplyStage::Close ==> (r matches ApplyAction::Report { done, total, label }
            && done == total && label@ == "finishing"@),
        s@.stage == ApplyStage::Report ==> (r matches ApplyAction::Report { done, total, label }
            && done == s@.done && label@ == label_of(s@.steps[s@.next])),
        r is Finish <==> s@.stage == ApplyStage::Done,
        r is Cancelled <==> s@.stage == ApplyStage::Cancelled,
{
}

} // verus!
