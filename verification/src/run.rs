//! The headless update from start to end. `--check` and `--plan` are read-only;
//! `--apply` runs the same update the GUI does, using a fixed policy instead of
//! asking.
use vstd::prelude::*;
use vstd::string::*;

use crate::cli::{
    apply_policy, choose_build, default_name, default_name_of, headline, next_move, report,
    report_rows, with_policy, Args, ArgsView, BuildError, Mode, ModeView, Next,
};
use crate::github::{optional_artifact, ArtifactView, DailyArtifact};
use crate::merge::optional_text;
use crate::prism::{Instance, InstanceView};
use crate::state::InstanceState;
use crate::text::{decimal, texts};
use crate::util::size_text;
use crate::worker::{ApplyJob, JobView, PrepareJob, Prepared, PreparedView};

verus! {

/// Where the run is.
#[derive(Debug, Clone, Copy, PartialEq, Eq, Structural)]
pub enum RunStage {
    Builds,
    Search(u32),
    Announce,
    /// Find a name for a plan.
    Name,
    /// Make room for a new instance.
    Place,
    Prepare,
    Review,
    Discard,
    Apply,
    Over(Ending),
}

/// How a run ends.
#[derive(Debug, Clone, Copy, PartialEq, Eq, Structural)]
pub enum Ending {
    /// That was all that was asked for.
    Checked,
    /// The instance is on that build already.
    UpToDate,
    /// The plan was shown, and nothing was created.
    Planned,
    /// The new instance is there.
    Created,
    /// There is no build to install.
    Failed(BuildError),
}

/// What is to be done next.
#[derive(Debug)]
pub enum RunTask {
    /// Ask for the builds of the variant.
    Builds(String),
    /// Look for that build of the variant.
    Search { build: u32, variant: String },
    /// Print these lines.
    Announce(Vec<String>),
    /// See that the directory is there, and find a free name in it.
    Place { root: String, name: String },
    /// Find a free name in the directory, which need not be there, and the outermost
    /// directory on the way to it that is missing. Nothing is created.
    Name { root: String, name: String },
    /// Prepare the update.
    Prepare(PrepareJob),
    /// Print these lines, and look at the clock.
    Review(Vec<String>),
    /// Remove the staged instance, and the directories from `made` down that were
    /// not there before.
    Discard { staging: String, made: Option<String> },
    /// Write the new instance.
    Apply(ApplyJob),
    /// Nothing.
    Finish(Ending),
}

/// What the run is told.
#[derive(Debug)]
pub enum RunEvent {
    Builds(Vec<DailyArtifact>),
    Searched(Option<DailyArtifact>),
    Announced,
    Placed(String),
    Named { name: String, missing: Option<String> },
    Prepared(Prepared),
    /// The time it is, and the name of the directory that is updated.
    Reviewed { now: String, from: Option<String> },
    Discarded,
    Applied,
}

/// What the run is told, as texts.
pub enum RunEventView {
    Builds(Seq<ArtifactView>),
    Searched(Option<ArtifactView>),
    Announced,
    Placed(Seq<char>),
    Named { name: Seq<char>, missing: Option<Seq<char>> },
    Prepared(PreparedView),
    Reviewed { now: Seq<char>, from: Option<Seq<char>> },
    Discarded,
    Applied,
}

impl View for RunEvent {
    type V = RunEventView;

    open spec fn view(&self) -> RunEventView {
        match *self {
            RunEvent::Builds(b) => RunEventView::Builds(crate::github::artifact_views(b@)),
            RunEvent::Searched(a) => RunEventView::Searched(optional_artifact(a)),
            RunEvent::Announced => RunEventView::Announced,
            RunEvent::Placed(name) => RunEventView::Placed(name@),
            RunEvent::Named { name, missing } => RunEventView::Named {
                name: name@,
                missing: optional_text(missing),
            },
            RunEvent::Prepared(p) => RunEventView::Prepared(p@),
            RunEvent::Reviewed { now, from } => RunEventView::Reviewed {
                now: now@,
                from: optional_text(from),
            },
            RunEvent::Discarded => RunEventView::Discarded,
            RunEvent::Applied => RunEventView::Applied,
        }
    }
}

/// A headless update. It says what it wants done, and is told what came of it.
#[derive(Debug)]
pub struct Run {
    args: Args,
    token: Option<String>,
    instance: Instance,
    root: String,
    installed: Option<u32>,
    stage: RunStage,
    artifact: Option<DailyArtifact>,
    final_name: String,
    missing: Option<String>,
    prepared: Option<Prepared>,
    now: String,
    from: Option<String>,
}

/// A run as texts.
pub struct RunView {
    pub args: ArgsView,
    pub token: Option<Seq<char>>,
    pub instance: InstanceView,
    pub root: Seq<char>,
    pub installed: Option<u32>,
    pub stage: RunStage,
    pub artifact: Option<ArtifactView>,
    pub final_name: Seq<char>,
    pub missing: Option<Seq<char>>,
    pub prepared: Option<PreparedView>,
    pub now: Seq<char>,
    pub from: Option<Seq<char>>,
}

impl View for Run {
    type V = RunView;

    closed spec fn view(&self) -> RunView {
        RunView {
            args: self.args@,
            token: optional_text(self.token),
            instance: self.instance@,
            root: self.root@,
            installed: self.installed,
            stage: self.stage,
            artifact: optional_artifact(self.artifact),
            final_name: self.final_name@,
            missing: optional_text(self.missing),
            prepared: crate::wizard::optional_prepared(self.prepared),
            now: self.now@,
            from: optional_text(self.from),
        }
    }
}

/// The build to install: the wanted one, which was searched for, or the newest.
pub open spec fn build_chosen(
    wanted: Option<u32>,
    searched: Option<ArtifactView>,
    builds: Seq<ArtifactView>,
) -> Result<ArtifactView, BuildError> {
    match wanted {
        Some(b) => match searched {
            Some(a) => Ok(a),
            None => Err(BuildError::Unavailable(b)),
        },
        None => if builds.len() > 0 {
            Ok(builds[0])
        } else {
            Err(BuildError::NoBuilds)
        },
    }
}

/// What to do once it is known what is installed and what is available.
pub open spec fn move_after(mode: ModeView, installed: Option<u32>, available: u32) -> Next {
    if mode is Check {
        Next::Stop
    } else if installed == Some(available) && !(mode is Plan) {
        Next::UpToDate
    } else {
        Next::Prepare
    }
}

impl RunView {
    pub open spec fn at(self, stage: RunStage) -> RunView {
        RunView { stage, ..self }
    }

    /// The run with a build, or over for want of one.
    pub open spec fn with_build(self, chosen: Result<ArtifactView, BuildError>) -> RunView {
        match chosen {
            Ok(a) => RunView { artifact: Some(a), stage: RunStage::Announce, ..self },
            Err(e) => self.at(RunStage::Over(Ending::Failed(e))),
        }
    }

    /// Where the new instance goes.
    pub open spec fn dest_root(self) -> Seq<char> {
        match self.args.dest_root {
            Some(dir) => dir,
            None => self.root,
        }
    }

    /// What the new instance is called.
    pub open spec fn display_name(self) -> Seq<char> {
        match self.args.name {
            Some(name) => name,
            None => match self.artifact {
                Some(a) => default_name_of(a.build),
                None => Seq::empty(),
            },
        }
    }

    /// The run once it has been told. What it does not wait for changes nothing.
    pub open spec fn told(self, e: RunEventView) -> RunView {
        match (self.stage, e) {
            (RunStage::Builds, RunEventView::Builds(builds)) => match self.args.build {
                Some(b) => self.at(RunStage::Search(b)),
                None => self.with_build(build_chosen(None, None, builds)),
            },
            (RunStage::Search(b), RunEventView::Searched(found)) => self.with_build(
                build_chosen(Some(b), found, Seq::empty()),
            ),
            (RunStage::Announce, RunEventView::Announced) => match self.artifact {
                Some(a) => match move_after(self.args.mode, self.installed, a.build) {
                    Next::Stop => self.at(RunStage::Over(Ending::Checked)),
                    Next::UpToDate => self.at(RunStage::Over(Ending::UpToDate)),
                    Next::Prepare => if self.args.mode is Plan {
                        self.at(RunStage::Name)
                    } else {
                        self.at(RunStage::Place)
                    },
                },
                None => self,
            },
            (RunStage::Name, RunEventView::Named { name, missing }) => RunView {
                final_name: name,
                missing,
                stage: RunStage::Prepare,
                ..self
            },
            (RunStage::Place, RunEventView::Placed(name)) => RunView {
                final_name: name,
                stage: RunStage::Prepare,
                ..self
            },
            (RunStage::Prepare, RunEventView::Prepared(p)) => RunView {
                prepared: Some(p),
                stage: RunStage::Review,
                ..self
            },
            (RunStage::Review, RunEventView::Reviewed { now, from }) => RunView {
                now,
                from,
                stage: if self.args.mode is Plan {
                    RunStage::Discard
                } else {
                    RunStage::Apply
                },
                ..self
            },
            (RunStage::Discard, RunEventView::Discarded) => self.at(
                RunStage::Over(Ending::Planned),
            ),
            (RunStage::Apply, RunEventView::Applied) => self.at(RunStage::Over(Ending::Created)),
            _ => self,
        }
    }

    /// What a stage needs to have at hand.
    pub open spec fn ready(self) -> bool {
        match self.stage {
            RunStage::Builds => true,
            RunStage::Search(_) => true,
            RunStage::Announce => self.artifact is Some,
            RunStage::Name => self.artifact is Some,
            RunStage::Place => self.artifact is Some,
            RunStage::Prepare => self.artifact is Some,
            RunStage::Review => self.artifact is Some && self.prepared is Some,
            RunStage::Discard => self.artifact is Some && self.prepared is Some,
            RunStage::Apply => self.artifact is Some && self.prepared is Some,
            RunStage::Over(_) => true,
        }
    }
}

/// The job that writes the new instance: what was prepared, with everything
/// decided by policy.
pub open spec fn is_apply_job(job: ApplyJob, run: RunView) -> bool {
    let p = run.prepared->0;
    let a = run.artifact->0;
    &&& job.plan@ == with_policy(p.plan, run.args.on_conflict, run.args.keep_removed)
    &&& job.prepared_staging@ == p.staging
    &&& job.old_instance@ == run.instance.dir
    &&& job.instances_root@ == run.dest_root()
    &&& job.final_name@ == run.final_name
    &&& job.display_name@ == run.display_name()
    &&& optional_text(job.download_path) == p.download_path
    &&& job.keep_download == run.args.keep_download
    &&& job.state.build == Some(a.build)
    &&& optional_text(job.state.date) == Some(a.date)
    &&& optional_text(job.state.variant) == Some(a.variant)
    &&& job.state.artifact_id == Some(a.id)
    &&& optional_text(job.state.updated_at) == Some(run.now)
    &&& optional_text(job.state.updated_from) == run.from
}

/// What is installed and what is available.
pub open spec fn headline_rows(
    instance: InstanceView,
    installed: Option<u32>,
    a: ArtifactView,
) -> Seq<Seq<char>> {
    seq![
        "instance : "@ + instance.name + " ("@ + instance.dir + ")"@,
        "installed: "@ + match installed {
            Some(b) => "daily "@ + decimal(b as nat),
            None => "unknown"@,
        },
        "available: "@ + ("daily "@ + decimal(a.build as nat) + " ("@ + a.date + ")"@) + " ("@
            + size_text(a.size as nat) + ")"@,
    ]
}

fn same_text(t: &Option<String>) -> (r: Option<String>)
    ensures
        optional_text(r) == optional_text(*t),
{
    match t {
        Some(t) => Some(t.clone()),
        None => None,
    }
}

impl Run {
    pub open spec fn wf(self) -> bool {
        self@.ready()
    }

    /// Begin, with what the arguments say, the token to use, the instance to
    /// update, the root it lies in and the build it is on.
    pub fn new(
        args: Args,
        token: Option<String>,
        instance: Instance,
        root: String,
        installed: Option<u32>,
    ) -> (r: Self)
        ensures
            r.wf(),
            r@ == (RunView {
                args: args@,
                token: optional_text(token),
                instance: instance@,
                root: root@,
                installed,
                stage: RunStage::Builds,
                artifact: None,
                final_name: Seq::empty(),
                missing: None,
                prepared: None,
                now: Seq::empty(),
                from: None,
            }),
    {
        Run {
            args,
            token,
            instance,
            root,
            installed,
            stage: RunStage::Builds,
            artifact: None,
            final_name: String::new(),
            missing: None,
            prepared: None,
            now: String::new(),
            from: None,
        }
    }

    fn dest_root(&self) -> (r: String)
        ensures
            r@ == self@.dest_root(),
    {
        match &self.args.dest_root {
            Some(dir) => dir.clone(),
            None => self.root.clone(),
        }
    }

    fn display_name(&self) -> (r: String)
        ensures
            r@ == self@.display_name(),
    {
        match &self.args.name {
            Some(name) => name.clone(),
            None => match &self.artifact {
                Some(a) => default_name(a.build),
                None => String::new(),
            },
        }
    }

    /// What is to be done next. What was prepared goes out with the job that
    /// writes it.
    pub fn task(self) -> (r: (Self, RunTask))
        requires
            self.wf(),
        ensures
            r.0.wf() || r.1 is Apply,
            r.0@ == (if r.1 is Apply {
                RunView { prepared: None, ..self@ }
            } else {
                self@
            }),
            match self@.stage {
                RunStage::Builds => r.1 matches RunTask::Builds(v) && v@ == self@.args.variant,
                RunStage::Search(b) => r.1 matches RunTask::Search { build, variant } && build == b
                    && variant@ == self@.args.variant,
                RunStage::Announce => r.1 matches RunTask::Announce(rows) && texts(rows@)
                    == headline_rows(self@.instance, self@.installed, self@.artifact->0),
                RunStage::Place => r.1 matches RunTask::Place { root, name } && root@
                    == self@.dest_root() && name@ == self@.display_name(),
                RunStage::Name => r.1 matches RunTask::Name { root, name } && root@
                    == self@.dest_root() && name@ == self@.display_name(),
                RunStage::Prepare => r.1 matches RunTask::Prepare(job) && job@ == (JobView {
                    token: self@.token,
                    instance: self@.instance,
                    instances_root: self@.dest_root(),
                    artifact: self@.artifact->0,
                    final_name: self@.final_name,
                    display_name: self@.display_name(),
                }),
                RunStage::Review => r.1 matches RunTask::Review(rows) && texts(rows@)
                    == report_rows(self@.prepared->0),
                RunStage::Discard => r.1 matches RunTask::Discard { staging, made } && staging@
                    == self@.prepared->0.staging && optional_text(made) == self@.missing,
                RunStage::Apply => r.1 matches RunTask::Apply(job) && is_apply_job(job, self@),
                RunStage::Over(end) => r.1 matches RunTask::Finish(e) && e == end,
            },
    {
        let mut run = self;
        match run.stage {
            RunStage::Builds => {
                let task = RunTask::Builds(run.args.variant.clone());
                (run, task)
            },
            RunStage::Search(build) => {
                let task = RunTask::Search { build, variant: run.args.variant.clone() };
                (run, task)
            },
            RunStage::Announce => {
                let rows = match &run.artifact {
                    Some(a) => headline(&run.instance, run.installed, a),
                    None => Vec::new(),
                };
                (run, RunTask::Announce(rows))
            },
            RunStage::Place => {
                let task = RunTask::Place { root: run.dest_root(), name: run.display_name() };
                (run, task)
            },
            RunStage::Name => {
                let task = RunTask::Name { root: run.dest_root(), name: run.display_name() };
                (run, task)
            },
            RunStage::Prepare => {
                match &run.artifact {
                    Some(a) => {
                        let job = PrepareJob {
                            token: same_text(&run.token),
                            instance: run.instance.duplicate(),
                            instances_root: run.dest_root(),
                            artifact: a.duplicate(),
                            final_name: run.final_name.clone(),
                            display_name: run.display_name(),
                        };
                        (run, RunTask::Prepare(job))
                    },
                    None => (run, RunTask::Finish(Ending::Checked)),
                }
            },
            RunStage::Review => {
                let rows = match &run.prepared {
                    Some(p) => report(p),
                    None => Vec::new(),
                };
                (run, RunTask::Review(rows))
            },
            RunStage::Discard => {
                let staging = match &run.prepared {
                    Some(p) => p.staging.clone(),
                    None => String::new(),
                };
                let made = same_text(&run.missing);
                (run, RunTask::Discard { staging, made })
            },
            RunStage::Apply => {
                let root = run.dest_root();
                let display = run.display_name();
                let prepared = run.prepared.take();
                match (prepared, &run.artifact) {
                    (Some(p), Some(a)) => {
                        let state = InstanceState::updated(a, run.now.clone(), same_text(&run.from));
                        let job = ApplyJob {
                            plan: apply_policy(p.plan, run.args.on_conflict, run.args.keep_removed),
                            prepared_staging: p.staging,
                            old_instance: run.instance.dir.clone(),
                            instances_root: root,
                            final_name: run.final_name.clone(),
                            display_name: display,
                            state,
                            download_path: p.download_path,
                            keep_download: run.args.keep_download,
                        };
                        (run, RunTask::Apply(job))
                    },
                    _ => (run, RunTask::Finish(Ending::Checked)),
                }
            },
            RunStage::Over(end) => (run, RunTask::Finish(end)),
        }
    }

    /// Tell the run what came of it.
    pub fn tell(self, e: RunEvent) -> (r: Self)
        ensures
            self.wf() ==> r.wf(),
            r@ == self@.told(e@),
    {
        let mut run = self;
        match (run.stage, e) {
            (RunStage::Builds, RunEvent::Builds(builds)) => {
                match run.args.build {
                    Some(b) => {
                        run.stage = RunStage::Search(b);
                    },
                    None => {
                        match choose_build(None, None, &builds) {
                            Ok(a) => {
                                run.artifact = Some(a);
                                run.stage = RunStage::Announce;
                            },
                            Err(e) => {
                                run.stage = RunStage::Over(Ending::Failed(e));
                            },
                        }
                    },
                }
            },
            (RunStage::Search(b), RunEvent::Searched(found)) => {
                match choose_build(Some(b), found, &Vec::new()) {
                    Ok(a) => {
                        run.artifact = Some(a);
                        run.stage = RunStage::Announce;
                    },
                    Err(e) => {
                        run.stage = RunStage::Over(Ending::Failed(e));
                    },
                }
            },
            (RunStage::Announce, RunEvent::Announced) => {
                if let Some(a) = &run.artifact {
                    let next = next_move(&run.args.mode, run.installed, a.build);
                    run.stage = match next {
                        Next::Stop => RunStage::Over(Ending::Checked),
                        Next::UpToDate => RunStage::Over(Ending::UpToDate),
                        Next::Prepare => if let Mode::Plan = run.args.mode {
                            RunStage::Name
                        } else {
                            RunStage::Place
                        },
                    };
                }
            },
            (RunStage::Place, RunEvent::Placed(name)) => {
                run.final_name = name;
                run.stage = RunStage::Prepare;
            },
            (RunStage::Name, RunEvent::Named { name, missing }) => {
                run.final_name = name;
                run.missing = missing;
                run.stage = RunStage::Prepare;
            },
            (RunStage::Prepare, RunEvent::Prepared(p)) => {
                run.prepared = Some(p);
                run.stage = RunStage::Review;
            },
            (RunStage::Review, RunEvent::Reviewed { now, from }) => {
                run.now = now;
                run.from = from;
                run.stage = if let Mode::Plan = run.args.mode {
                    RunStage::Discard
                } else {
                    RunStage::Apply
                };
            },
            (RunStage::Discard, RunEvent::Discarded) => {
                run.stage = RunStage::Over(Ending::Planned);
            },
            (RunStage::Apply, RunEvent::Applied) => {
                run.stage = RunStage::Over(Ending::Created);
            },
            _ => {},
        }
        run
    }
}

// ---------------------------------------------------------------------------
// Laws
// ---------------------------------------------------------------------------

/// The run after it has been told of these events.
pub open spec fn after_events(run: RunView, events: Seq<RunEventView>) -> RunView
    decreases events.len(),
{
    if events.len() == 0 {
        run
    } else {
        after_events(run, events.drop_last()).told(events.last())
    }
}

/// A check only looks, and a plan creates nothing: whatever the run is told, a
/// check never comes to preparing an update, and neither comes to making room for
/// an instance or to writing one.
pub proof fn law_check_and_plan_are_read_only(run: RunView, events: Seq<RunEventView>)
    requires
        run.stage == RunStage::Builds,
    ensures
        ({
            let stage = after_events(run, events).stage;
            &&& run.args.mode is Check ==> stage != RunStage::Name && stage != RunStage::Prepare
                && stage != RunStage::Review && stage != RunStage::Discard && stage
                != RunStage::Apply
            &&& run.args.mode is Check || run.args.mode is Plan ==> stage != RunStage::Place && stage != RunStage::Apply
                && stage != RunStage::Over(Ending::Created)
        }),
        after_events(run, events).args == run.args,
    decreases events.len(),
{
    if events.len() > 0 {
        law_check_and_plan_are_read_only(run, events.drop_last());
    }
}

/// What a plan staged is thrown away before the run is over, together with the
/// directories that were missing when it began.
pub proof fn law_a_plan_is_discarded(run: RunView, events: Seq<RunEventView>)
    requires
        run.stage == RunStage::Builds,
        run.args.mode is Plan,
    ensures
        ({
            let end = after_events(run, events);
            &&& end.stage is Over ==> end.stage == RunStage::Over(Ending::Planned)
                || end.stage->Over_0 is Failed
            &&& end.stage == RunStage::Over(Ending::Planned) ==> events.contains(
                RunEventView::Discarded,
            )
            &&& end.stage == RunStage::Prepare || end.stage == RunStage::Review || end.stage
                == RunStage::Discard ==> events.contains(
                RunEventView::Named { name: end.final_name, missing: end.missing },
            )
        }),
    decreases events.len(),
{
    if events.len() > 0 {
        let init = events.drop_last();
        law_a_plan_is_discarded(run, init);
        law_check_and_plan_are_read_only(run, init);
        assert(events[events.len() - 1] == events.last());
        assert forall|e: RunEventView| #[trigger] init.contains(e) implies events.contains(e) by {
            assert(events[init.index_of(e)] == e);
        }
    }
}

/// An instance that is on the build is not updated again.
pub proof fn law_an_up_to_date_instance_stays(run: RunView)
    requires
        run.stage == RunStage::Announce,
        run.artifact is Some,
        run.installed == Some(run.artifact->0.build),
        run.args.mode is Apply,
    ensures
        run.told(RunEventView::Announced).stage == RunStage::Over(Ending::UpToDate),
{
}

/// Where the new instance goes and what it is called: what the arguments say, else next
/// to the old one and after its build.
pub proof fn law_where_the_new_instance_goes(run: RunView, dir: Seq<char>, a: ArtifactView)
    ensures
        run.args.dest_root == Some(dir) ==> run.dest_root() == dir,
        run.args.dest_root is None ==> run.dest_root() == run.root,
        run.args.name == Some(dir) ==> run.display_name() == dir,
        run.args.name is None && run.artifact == Some(a) ==> run.display_name() == "GTNH-daily-"@
            + decimal(a.build as nat),
{
}

/// Which build is installed: the wanted one, where the search for it found something,
/// and the first of the list where none was asked for. Where there is none the run is
/// over, and says why.
pub proof fn law_which_build_is_installed(
    run: RunView,
    builds: Seq<ArtifactView>,
    found: ArtifactView,
    wanted: u32,
)
    requires
        run.stage == RunStage::Builds,
    ensures
        run.args.build is None && builds.len() > 0 ==> ({
            let now = run.told(RunEventView::Builds(builds));
            now.stage == RunStage::Announce && now.artifact == Some(builds[0])
        }),
        run.args.build is None && builds.len() == 0 ==> run.told(
            RunEventView::Builds(builds),
        ).stage == RunStage::Over(Ending::Failed(BuildError::NoBuilds)),
        run.args.build == Some(wanted) ==> ({
            let then = run.told(RunEventView::Builds(builds));
            let hit = then.told(RunEventView::Searched(Some(found)));
            let miss = then.told(RunEventView::Searched(None));
            &&& then.stage == RunStage::Search(wanted)
            &&& hit.stage == RunStage::Announce && hit.artifact == Some(found)
            &&& miss.stage == RunStage::Over(Ending::Failed(BuildError::Unavailable(wanted)))
        }),
{
}

/// What follows once the build is known. A check is over; an instance that is on the
/// build is left alone, unless a plan was asked for; a plan finds a name and everything
/// else makes room for the new instance.
pub proof fn law_what_follows_the_announcement(run: RunView, a: ArtifactView)
    requires
        run.stage == RunStage::Announce,
        run.artifact == Some(a),
    ensures
        ({
            let next = run.told(RunEventView::Announced).stage;
            let current = run.installed == Some(a.build);
            &&& run.args.mode is Check ==> next == RunStage::Over(Ending::Checked)
            &&& run.args.mode is Plan ==> next == RunStage::Name
            &&& (run.args.mode is Apply || run.args.mode is Gui) && current ==> next
                == RunStage::Over(Ending::UpToDate)
            &&& (run.args.mode is Apply || run.args.mode is Gui) && !current ==> next
                == RunStage::Place
        }),
{
}

/// The way from a name to the end. The name, the directories that were missing, what
/// was prepared, the time and the old name are kept as they are told; a plan ends with
/// what was staged thrown away, an update with the new instance.
pub proof fn law_a_run_keeps_what_it_is_told(
    run: RunView,
    name: Seq<char>,
    missing: Option<Seq<char>>,
    p: PreparedView,
    now: Seq<char>,
    from: Option<Seq<char>>,
)
    ensures
        run.stage == RunStage::Place ==> ({
            let placed = run.told(RunEventView::Placed(name));
            placed.stage == RunStage::Prepare && placed.final_name == name && placed.missing
                == run.missing
        }),
        run.stage == RunStage::Name ==> ({
            let named = run.told(RunEventView::Named { name, missing });
            named.stage == RunStage::Prepare && named.final_name == name && named.missing == missing
        }),
        run.stage == RunStage::Prepare ==> ({
            let ready = run.told(RunEventView::Prepared(p));
            ready.stage == RunStage::Review && ready.prepared == Some(p) && ready.final_name
                == run.final_name
        }),
        run.stage == RunStage::Review ==> ({
            let seen = run.told(RunEventView::Reviewed { now, from });
            &&& seen.now == now && seen.from == from && seen.prepared == run.prepared
            &&& run.args.mode is Plan ==> seen.stage == RunStage::Discard
            &&& !(run.args.mode is Plan) ==> seen.stage == RunStage::Apply
        }),
        run.stage == RunStage::Discard ==> run.told(RunEventView::Discarded).stage
            == RunStage::Over(Ending::Planned),
        run.stage == RunStage::Apply ==> run.told(RunEventView::Applied).stage == RunStage::Over(
            Ending::Created,
        ),
{
}

/// A run that is over stays so, and so does what it works on, whatever it is told.
pub proof fn law_a_run_that_is_over_stays_over(run: RunView, e: RunEventView)
    ensures
        run.stage is Over ==> run.told(e) == run,
        run.told(e).args == run.args,
        run.told(e).instance == run.instance,
        run.told(e).root == run.root,
        run.told(e).installed == run.installed,
        run.told(e).token == run.token,
        run.told(e) == run || run.told(e).stage != run.stage,
{
}

/// The headline says which instance it is about, what it is on and what there is.
pub proof fn law_what_the_headline_says(
    instance: InstanceView,
    installed: Option<u32>,
    a: ArtifactView,
    b: u32,
)
    ensures
        headline_rows(instance, installed, a).len() == 3,
        headline_rows(instance, installed, a)[0] == "instance : "@ + instance.name + " ("@
            + instance.dir + ")"@,
        installed == Some(b) ==> headline_rows(instance, installed, a)[1] == "installed: "@ + (
        "daily "@ + decimal(b as nat)),
        installed is None ==> headline_rows(instance, installed, a)[1] == "installed: "@
            + "unknown"@,
        headline_rows(instance, installed, a)[2] == "available: "@ + ("daily "@ + decimal(
            a.build as nat,
        ) + " ("@ + a.date + ")"@) + " ("@ + size_text(a.size as nat) + ")"@,
{
}

/// The job that writes the new instance holds what was prepared, decided by the policy
/// of the arguments, and the state of the build that was installed.
pub proof fn law_what_is_written(job: ApplyJob, run: RunView, p: PreparedView, a: ArtifactView)
    requires
        is_apply_job(job, run),
        run.prepared == Some(p),
        run.artifact == Some(a),
    ensures
        job.plan@ == with_policy(p.plan, run.args.on_conflict, run.args.keep_removed),
        job.prepared_staging@ == p.staging,
        job.old_instance@ == run.instance.dir,
        job.final_name@ == run.final_name,
        run.args.dest_root is None ==> job.instances_root@ == run.root,
        run.args.dest_root matches Some(dir) ==> job.instances_root@ == dir,
        run.args.name is None ==> job.display_name@ == "GTNH-daily-"@ + decimal(a.build as nat),
        run.args.name matches Some(name) ==> job.display_name@ == name,
        optional_text(job.download_path) == p.download_path,
        job.keep_download == run.args.keep_download,
        job.state.build == Some(a.build),
        optional_text(job.state.date) == Some(a.date),
        optional_text(job.state.variant) == Some(a.variant),
        job.state.artifact_id == Some(a.id),
        optional_text(job.state.updated_at) == Some(run.now),
        optional_text(job.state.updated_from) == run.from,
{
}

} // verus!
