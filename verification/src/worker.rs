//! Background jobs. Everything slow (network, zip, disk walking) runs off the UI
//! thread and reports back; what is done in which order, and which original the
//! files are merged against, is decided here.
use vstd::prelude::*;
use vstd::string::*;

use crate::apply::minecraft_in;
use crate::github::{ArtifactView, DailyArtifact};
use crate::merge::optional_text;
use crate::plan::{Plan, PlanView};
use crate::prism::{Instance, InstanceView};
use crate::state::{base_zip, InstanceState};
use crate::text::{decimal, decimal_of};
use crate::util::{human_bytes, join_path, path_in, size_text};

verus! {

#[derive(Debug, Clone, Copy, PartialEq, Eq, Structural)]
pub enum Phase {
    Query,
    Download,
    Extract,
    Snapshot,
    Scan,
    Apply,
}

impl Phase {
    pub fn label(self) -> (r: &'static str)
        ensures
            r@ == (match self {
                Phase::Query => "Checking for builds"@,
                Phase::Download => "Downloading pack"@,
                Phase::Extract => "Extracting"@,
                Phase::Snapshot => "Saving merge base"@,
                Phase::Scan => "Comparing files"@,
                Phase::Apply => "Writing new instance"@,
            }),
    {
        match self {
            Phase::Query => "Checking for builds",
            Phase::Download => "Downloading pack",
            Phase::Extract => "Extracting",
            Phase::Snapshot => "Saving merge base",
            Phase::Scan => "Comparing files",
            Phase::Apply => "Writing new instance",
        }
    }
}

// ---------------------------------------------------------------------------
// Jobs
// ---------------------------------------------------------------------------

#[derive(Debug)]
pub struct PrepareJob {
    pub token: Option<String>,
    pub instance: Instance,
    pub instances_root: String,
    pub artifact: DailyArtifact,
    pub final_name: String,
    pub display_name: String,
}

#[derive(Debug)]
pub struct Prepared {
    pub plan: Plan,
    pub staging: String,
    pub artifact: DailyArtifact,
    pub instance: Instance,
    pub instances_root: String,
    pub final_name: String,
    pub display_name: String,
    pub download_path: Option<String>,
    /// Human-readable note about where the merge base came from.
    pub base_note: String,
    pub old_build: Option<u32>,
}

#[derive(Debug)]
pub struct ApplyJob {
    pub plan: Plan,
    pub prepared_staging: String,
    pub old_instance: String,
    pub instances_root: String,
    pub final_name: String,
    pub display_name: String,
    pub state: InstanceState,
    pub download_path: Option<String>,
    pub keep_download: bool,
}

/// What has been prepared, as texts.
pub struct PreparedView {
    pub plan: PlanView,
    pub staging: Seq<char>,
    pub artifact: ArtifactView,
    pub instance: InstanceView,
    pub instances_root: Seq<char>,
    pub final_name: Seq<char>,
    pub display_name: Seq<char>,
    pub download_path: Option<Seq<char>>,
    pub base_note: Seq<char>,
    pub old_build: Option<u32>,
}

impl View for Prepared {
    type V = PreparedView;

    open spec fn view(&self) -> PreparedView {
        PreparedView {
            plan: self.plan@,
            staging: self.staging@,
            artifact: self.artifact@,
            instance: self.instance@,
            instances_root: self.instances_root@,
            final_name: self.final_name@,
            display_name: self.display_name@,
            download_path: optional_text(self.download_path),
            base_note: self.base_note@,
            old_build: self.old_build,
        }
    }
}

/// A job as texts.
pub struct JobView {
    pub token: Option<Seq<char>>,
    pub instance: InstanceView,
    pub instances_root: Seq<char>,
    pub artifact: ArtifactView,
    pub final_name: Seq<char>,
    pub display_name: Seq<char>,
}

impl View for PrepareJob {
    type V = JobView;

    open spec fn view(&self) -> JobView {
        JobView {
            token: optional_text(self.token),
            instance: self.instance@,
            instances_root: self.instances_root@,
            artifact: self.artifact@,
            final_name: self.final_name@,
            display_name: self.display_name@,
        }
    }
}

impl ApplyJob {
    /// The downloaded pack, where it is to be deleted after the update.
    pub fn leftover(&self) -> (r: Option<&String>)
        ensures
            r == (if self.keep_download {
                None
            } else {
                match self.download_path {
                    Some(path) => Some(&path),
                    None => None,
                }
            }),
    {
        if self.keep_download {
            None
        } else {
            self.download_path.as_ref()
        }
    }
}

/// Where an instance is built before it is moved into place.
pub open spec fn staging_of(root: Seq<char>, final_name: Seq<char>) -> Seq<char> {
    path_in(root, final_name + ".part"@)
}

/// Where an instance is built before it is moved into place.
pub fn staging_dir(root: &str, final_name: &str) -> (r: String)
    ensures
        r@ == staging_of(root@, final_name@),
        r@ == path_in(root@, final_name@ + ".part"@),
{
    let mut name = final_name.to_owned();
    name.append(".part");
    join_path(root, name.as_str())
}

// ---------------------------------------------------------------------------
// Preparing
// ---------------------------------------------------------------------------

/// Where the originals come from.
#[derive(Debug, Clone, Copy, PartialEq, Eq, Structural)]
pub enum BaseKind {
    /// The snapshot in the old instance.
    Snapshot,
    /// The pack of the build that the old instance is on.
    Remote,
    /// Nowhere.
    Nothing,
}

/// What the preparation is waiting for.
#[derive(Debug, Clone, Copy, PartialEq, Eq, Structural)]
pub enum Stage {
    Clear,
    Measure,
    Download,
    Extract,
    Save,
    Inspect,
    OpenSnapshot,
    OpenRemote(u32),
    Compare(BaseKind),
    Done,
}

/// What is to be done next.
#[derive(Debug)]
pub enum Task {
    /// Remove what an earlier run left here.
    Clear(String),
    /// Find out how long the downloaded pack is, if it is there.
    Measure(String),
    /// Download the artifact.
    Download { artifact_id: u64, dest: String, size: u64 },
    /// Extract the pack.
    Extract { zip: String, staging: String },
    /// Save the pristine pack for the *next* update.
    Save { minecraft: String, dest: String },
    /// Find out whether the old instance has a snapshot, and which build it is on.
    Inspect { instance: String },
    /// Open the snapshot of the old instance.
    OpenSnapshot(String),
    /// Open the pack of the build that the old instance is on.
    OpenRemote { build: u32, variant: String },
    /// Compare the two trees, with the originals from there.
    Compare { ours: String, theirs: String, base: BaseKind },
    /// Nothing.
    Finish,
}

/// What came of looking for the build that the old instance is on.
#[derive(Debug)]
pub enum RemoteBaseOutcome {
    Found,
    /// GitHub does not have it any more.
    Gone,
    Failed(String),
}

/// What the preparation is told.
#[derive(Debug)]
pub enum Progressed {
    Cleared,
    Measured(Option<u64>),
    Downloaded,
    Extracted,
    Saved,
    Inspected { has_snapshot: bool, build: Option<u32> },
    SnapshotOpened,
    Remote(RemoteBaseOutcome),
    Compared(Plan),
}

/// What the preparation is told, as texts.
pub enum ProgressedView {
    Cleared,
    Measured(Option<u64>),
    Downloaded,
    Extracted,
    Saved,
    Inspected { has_snapshot: bool, build: Option<u32> },
    SnapshotOpened,
    Found,
    Gone,
    Failed(Seq<char>),
    Compared(PlanView),
}

impl View for Progressed {
    type V = ProgressedView;

    open spec fn view(&self) -> ProgressedView {
        match *self {
            Progressed::Cleared => ProgressedView::Cleared,
            Progressed::Measured(n) => ProgressedView::Measured(n),
            Progressed::Downloaded => ProgressedView::Downloaded,
            Progressed::Extracted => ProgressedView::Extracted,
            Progressed::Saved => ProgressedView::Saved,
            Progressed::Inspected { has_snapshot, build } => ProgressedView::Inspected {
                has_snapshot,
                build,
            },
            Progressed::SnapshotOpened => ProgressedView::SnapshotOpened,
            Progressed::Remote(RemoteBaseOutcome::Found) => ProgressedView::Found,
            Progressed::Remote(RemoteBaseOutcome::Gone) => ProgressedView::Gone,
            Progressed::Remote(RemoteBaseOutcome::Failed(e)) => ProgressedView::Failed(e@),
            Progressed::Compared(plan) => ProgressedView::Compared(plan@),
        }
    }
}

/// The way from a chosen build to a plan: download, extract, save the pristine
/// pack, find the originals of the version being replaced, compare.
#[derive(Debug)]
pub struct Preparation {
    job: PrepareJob,
    cache: String,
    stage: Stage,
    old_build: Option<u32>,
    base_note: String,
    plan: Option<Plan>,
}

/// The preparation as texts.
pub struct PreparationView {
    pub job: JobView,
    pub cache: Seq<char>,
    pub stage: Stage,
    pub old_build: Option<u32>,
    pub base_note: Seq<char>,
    pub plan: Option<PlanView>,
}

pub open spec fn optional_plan(p: Option<Plan>) -> Option<PlanView> {
    match p {
        Some(p) => Some(p@),
        None => None,
    }
}

impl View for Preparation {
    type V = PreparationView;

    closed spec fn view(&self) -> PreparationView {
        PreparationView {
            job: self.job@,
            cache: self.cache@,
            stage: self.stage,
            old_build: self.old_build,
            base_note: self.base_note@,
            plan: optional_plan(self.plan),
        }
    }
}

pub open spec fn remote_note(build: u32) -> Seq<char> {
    "Merge base: daily "@ + decimal(build as nat)
        + " artifact, read on demand over the network."@
}

pub open spec fn gone_note(build: u32) -> Seq<char> {
    "No artifact for daily "@ + decimal(build as nat)
        + " is still on GitHub, so every changed file needs a manual choice."@
}

pub open spec fn failed_note(build: u32, e: Seq<char>) -> Seq<char> {
    "Could not read the daily "@ + decimal(build as nat) + " artifact ("@ + e + ")."@
}

pub open spec fn unknown_note() -> Seq<char> {
    "Could not tell which daily build this instance is on, so every changed file needs a manual choice."@
}

pub open spec fn snapshot_note() -> Seq<char> {
    "Merge base: snapshot saved by a previous update."@
}

impl PreparationView {
    pub open spec fn staging(self) -> Seq<char> {
        staging_of(self.job.instances_root, self.job.final_name)
    }

    pub open spec fn zip(self) -> Seq<char> {
        path_in(self.cache, self.job.artifact.name)
    }

    pub open spec fn at(self, stage: Stage) -> PreparationView {
        PreparationView { stage, ..self }
    }

    pub open spec fn comparing(self, base: BaseKind, note: Seq<char>) -> PreparationView {
        PreparationView { stage: Stage::Compare(base), base_note: note, ..self }
    }

    /// The preparation once it has been told. What it does not wait for changes
    /// nothing. A pack that is there in full is not downloaded again; the
    /// originals come from the snapshot if there is one, else from the build that
    /// the instance is on, else from nowhere.
    pub open spec fn told(self, e: ProgressedView) -> PreparationView {
        match (self.stage, e) {
            (Stage::Clear, ProgressedView::Cleared) => self.at(Stage::Measure),
            (Stage::Measure, ProgressedView::Measured(n)) => self.at(
                if n == Some(self.job.artifact.size) {
                    Stage::Extract
                } else {
                    Stage::Download
                },
            ),
            (Stage::Download, ProgressedView::Downloaded) => self.at(Stage::Extract),
            (Stage::Extract, ProgressedView::Extracted) => self.at(Stage::Save),
            (Stage::Save, ProgressedView::Saved) => self.at(Stage::Inspect),
            (Stage::Inspect, ProgressedView::Inspected { has_snapshot, build }) => {
                let known = PreparationView { old_build: build, ..self };
                if has_snapshot {
                    known.at(Stage::OpenSnapshot)
                } else {
                    match build {
                        Some(b) => known.at(Stage::OpenRemote(b)),
                        None => known.comparing(BaseKind::Nothing, unknown_note()),
                    }
                }
            },
            (Stage::OpenSnapshot, ProgressedView::SnapshotOpened) => self.comparing(
                BaseKind::Snapshot,
                snapshot_note(),
            ),
            (Stage::OpenRemote(b), ProgressedView::Found) => self.comparing(
                BaseKind::Remote,
                remote_note(b),
            ),
            (Stage::OpenRemote(b), ProgressedView::Gone) => self.comparing(
                BaseKind::Nothing,
                gone_note(b),
            ),
            (Stage::OpenRemote(b), ProgressedView::Failed(e)) => self.comparing(
                BaseKind::Nothing,
                failed_note(b, e),
            ),
            (Stage::Compare(_), ProgressedView::Compared(plan)) => PreparationView {
                stage: Stage::Done,
                plan: Some(plan),
                ..self
            },
            _ => self,
        }
    }
}

fn note(front: &str, build: u32, back: &str) -> (r: String)
    ensures
        r@ == front@ + decimal(build as nat) + back@,
{
    let mut out = front.to_owned();
    out.append(decimal_of(build as u64).as_str());
    out.append(back);
    out
}

impl Preparation {
    /// Begin; downloads are kept in `cache`.
    pub fn new(job: PrepareJob, cache: String) -> (r: Self)
        ensures
            r@ == (PreparationView {
                job: job@,
                cache: cache@,
                stage: Stage::Clear,
                old_build: None,
                base_note: Seq::empty(),
                plan: None,
            }),
    {
        Preparation {
            job,
            cache,
            stage: Stage::Clear,
            old_build: None,
            base_note: String::new(),
            plan: None,
        }
    }

    pub fn staging(&self) -> (r: String)
        ensures
            r@ == self@.staging(),
    {
        staging_dir(self.job.instances_root.as_str(), self.job.final_name.as_str())
    }

    fn zip(&self) -> (r: String)
        ensures
            r@ == self@.zip(),
    {
        join_path(self.cache.as_str(), self.job.artifact.name.as_str())
    }

    /// What is to be done next.
    pub fn task(&self) -> (r: Task)
        ensures
            match self@.stage {
                Stage::Clear => r matches Task::Clear(p) && p@ == self@.staging(),
                Stage::Measure => r matches Task::Measure(p) && p@ == self@.zip(),
                Stage::Download => r matches Task::Download { artifact_id, dest, size }
                    && artifact_id == self@.job.artifact.id && dest@ == self@.zip() && size
                    == self@.job.artifact.size,
                Stage::Extract => r matches Task::Extract { zip, staging } && zip@ == self@.zip()
                    && staging@ == self@.staging(),
                Stage::Save => r matches Task::Save { minecraft, dest } && minecraft@
                    == minecraft_in(self@.staging()) && dest@ == path_in(
                    path_in(self@.staging(), ".gtnh-updater"@),
                    "base.zip"@,
                ),
                Stage::Inspect => r matches Task::Inspect { instance } && instance@
                    == self@.job.instance.dir,
                Stage::OpenSnapshot => r matches Task::OpenSnapshot(p) && p@ == path_in(
                    path_in(self@.job.instance.dir, ".gtnh-updater"@),
                    "base.zip"@,
                ),
                Stage::OpenRemote(b) => r matches Task::OpenRemote { build, variant } && build == b
                    && variant@ == self@.job.artifact.variant,
                Stage::Compare(kind) => r matches Task::Compare { ours, theirs, base } && ours@
                    == minecraft_in(self@.job.instance.dir) && theirs@ == minecraft_in(
                    self@.staging(),
                ) && base == kind,
                Stage::Done => r is Finish,
            },
    {
        match self.stage {
            Stage::Clear => Task::Clear(self.staging()),
            Stage::Measure => Task::Measure(self.zip()),
            Stage::Download => Task::Download {
                artifact_id: self.job.artifact.id,
                dest: self.zip(),
                size: self.job.artifact.size,
            },
            Stage::Extract => Task::Extract { zip: self.zip(), staging: self.staging() },
            Stage::Save => Task::Save {
                minecraft: join_path(self.staging().as_str(), ".minecraft"),
                dest: base_zip(self.staging().as_str()),
            },
            Stage::Inspect => Task::Inspect { instance: self.job.instance.dir.clone() },
            Stage::OpenSnapshot => Task::OpenSnapshot(base_zip(self.job.instance.dir.as_str())),
            Stage::OpenRemote(build) => Task::OpenRemote {
                build,
                variant: self.job.artifact.variant.clone(),
            },
            Stage::Compare(base) => Task::Compare {
                ours: self.job.instance.minecraft(),
                theirs: join_path(self.staging().as_str(), ".minecraft"),
                base,
            },
            Stage::Done => Task::Finish,
        }
    }

    /// Tell the preparation what came of it.
    pub fn tell(self, e: Progressed) -> (r: Self)
        ensures
            r@ == self@.told(e@),
    {
        let mut p = self;
        match (p.stage, e) {
            (Stage::Clear, Progressed::Cleared) => {
                p.stage = Stage::Measure;
            },
            (Stage::Measure, Progressed::Measured(n)) => {
                let whole = match n {
                    Some(n) => n == p.job.artifact.size,
                    None => false,
                };
                p.stage = if whole {
                    Stage::Extract
                } else {
                    Stage::Download
                };
            },
            (Stage::Download, Progressed::Downloaded) => {
                p.stage = Stage::Extract;
            },
            (Stage::Extract, Progressed::Extracted) => {
                p.stage = Stage::Save;
            },
            (Stage::Save, Progressed::Saved) => {
                p.stage = Stage::Inspect;
            },
            (Stage::Inspect, Progressed::Inspected { has_snapshot, build }) => {
                p.old_build = build;
                if has_snapshot {
                    p.stage = Stage::OpenSnapshot;
                } else {
                    match build {
                        Some(b) => {
                            p.stage = Stage::OpenRemote(b);
                        },
                        None => {
                            p.stage = Stage::Compare(BaseKind::Nothing);
                            p.base_note =
                            "Could not tell which daily build this instance is on, so every changed file needs a manual choice.".to_owned();
                        },
                    }
                }
            },
            (Stage::OpenSnapshot, Progressed::SnapshotOpened) => {
                p.stage = Stage::Compare(BaseKind::Snapshot);
                p.base_note = "Merge base: snapshot saved by a previous update.".to_owned();
            },
            (Stage::OpenRemote(b), Progressed::Remote(RemoteBaseOutcome::Found)) => {
                p.stage = Stage::Compare(BaseKind::Remote);
                p.base_note =
                note("Merge base: daily ", b, " artifact, read on demand over the network.");
            },
            (Stage::OpenRemote(b), Progressed::Remote(RemoteBaseOutcome::Gone)) => {
                p.stage = Stage::Compare(BaseKind::Nothing);
                p.base_note =
                note(
                    "No artifact for daily ",
                    b,
                    " is still on GitHub, so every changed file needs a manual choice.",
                );
            },
            (Stage::OpenRemote(b), Progressed::Remote(RemoteBaseOutcome::Failed(e))) => {
                p.stage = Stage::Compare(BaseKind::Nothing);
                let mut text = note("Could not read the daily ", b, " artifact (");
                text.append(e.as_str());
                text.append(").");
                p.base_note = text;
            },
            (Stage::Compare(_), Progressed::Compared(plan)) => {
                p.stage = Stage::Done;
                p.plan = Some(plan);
            },
            _ => {},
        }
        p
    }

    /// What has been prepared, once there is a plan.
    pub fn finish(self) -> (r: Option<Prepared>)
        ensures
            r is Some <==> self@.plan is Some,
            r matches Some(p) ==> p@ == (PreparedView {
                plan: self@.plan->0,
                staging: self@.staging(),
                artifact: self@.job.artifact,
                instance: self@.job.instance,
                instances_root: self@.job.instances_root,
                final_name: self@.job.final_name,
                display_name: self@.job.display_name,
                download_path: Some(self@.zip()),
                base_note: self@.base_note,
                old_build: self@.old_build,
            }),
    {
        let staging = self.staging();
        let zip = self.zip();
        match self.plan {
            Some(plan) => Some(
                Prepared {
                    plan,
                    staging,
                    artifact: self.job.artifact,
                    instance: self.job.instance,
                    instances_root: self.job.instances_root,
                    final_name: self.job.final_name,
                    display_name: self.job.display_name,
                    download_path: Some(zip),
                    base_note: self.base_note,
                    old_build: self.old_build,
                },
            ),
            None => None,
        }
    }
}

// ---------------------------------------------------------------------------
// Messages
// ---------------------------------------------------------------------------

/// The length of a download: what the reply announces, else what GitHub lists.
pub fn expected_length(announced: u64, listed: u64) -> (r: u64)
    ensures
        r == (if announced > 0 {
            announced
        } else {
            listed
        }),
{
    if announced > 0 {
        announced
    } else {
        listed
    }
}

pub fn download_message(done: u64, total: u64) -> (r: String)
    ensures
        r@ == size_text(done as nat) + " of "@ + size_text(total as nat),
{
    let mut out = human_bytes(done);
    out.append(" of ");
    out.append(human_bytes(total).as_str());
    out
}

/// How far it has come, in files.
pub fn count_message(done: usize, total: usize) -> (r: String)
    ensures
        r@ == decimal(done as nat) + " / "@ + decimal(total as nat),
{
    let mut out = decimal_of(done as u64);
    out.append(" / ");
    out.append(decimal_of(total as u64).as_str());
    out
}

pub fn nothing_found_message(variant: &str) -> (r: String)
    ensures
        r@ == "No non-expired `"@ + variant@
            + "` artifacts were found. GitHub keeps daily artifacts for a limited time."@,
{
    let mut out = "No non-expired `".to_owned();
    out.append(variant);
    out.append("` artifacts were found. GitHub keeps daily artifacts for a limited time.");
    out
}

// ---------------------------------------------------------------------------
// Laws
// ---------------------------------------------------------------------------

/// How far along a stage is.
pub open spec fn rank_of(stage: Stage) -> int {
    match stage {
        Stage::Clear => 0,
        Stage::Measure => 1,
        Stage::Download => 2,
        Stage::Extract => 3,
        Stage::Save => 4,
        Stage::Inspect => 5,
        Stage::OpenSnapshot => 6,
        Stage::OpenRemote(_) => 6,
        Stage::Compare(_) => 7,
        Stage::Done => 8,
    }
}

/// The preparation goes forward only: nothing it is told makes it go back, and it
/// is changed by what it waits for alone.
pub proof fn law_a_preparation_goes_forward(p: PreparationView, e: ProgressedView)
    ensures
        p.told(e) == p || rank_of(p.told(e).stage) > rank_of(p.stage),
        p.told(e).job == p.job,
        p.told(e).plan is Some && p.plan is None ==> p.stage is Compare,
{
}

/// The pristine pack is extracted and saved before anything is compared.
pub proof fn law_the_pack_is_saved_first(p: PreparationView, e: ProgressedView)
    ensures
        rank_of(p.stage) <= rank_of(Stage::Extract) < rank_of(p.told(e).stage) ==> p.stage
            == Stage::Extract && e is Extracted,
        rank_of(p.stage) <= rank_of(Stage::Save) < rank_of(p.told(e).stage) ==> p.stage
            == Stage::Save && e is Saved,
{
}

/// A snapshot is preferred to the network, and without either nothing is merged
/// against a wrong original.
pub proof fn law_the_best_original_is_used(
    p: PreparationView,
    has_snapshot: bool,
    build: Option<u32>,
)
    requires
        p.stage == Stage::Inspect,
    ensures
        ({
            let next = p.told(ProgressedView::Inspected { has_snapshot, build });
            &&& next.old_build == build
            &&& has_snapshot ==> next.stage == Stage::OpenSnapshot
            &&& !has_snapshot && build is Some ==> next.stage == Stage::OpenRemote(build->0)
            &&& !has_snapshot && build is None ==> next.stage == Stage::Compare(BaseKind::Nothing)
                && next.base_note == unknown_note()
        }),
{
}

/// An instance is built next to where it will be, under its name with `.part` behind
/// it; the pack is kept under its own name among the downloads.
pub proof fn law_where_things_are_built(p: PreparationView, root: Seq<char>, name: Seq<char>)
    ensures
        staging_of(root, name) == path_in(root, name + ".part"@),
        p.staging() == path_in(p.job.instances_root, p.job.final_name + ".part"@),
        p.zip() == path_in(p.cache, p.job.artifact.name),
{
}

/// The way up to the comparison. What is staged is cleared, the pack is downloaded
/// unless all of it is there, extracted, saved, and the old instance looked at.
pub proof fn law_a_preparation_step_by_step(p: PreparationView, size: Option<u64>)
    ensures
        p.stage == Stage::Clear ==> p.told(ProgressedView::Cleared).stage == Stage::Measure,
        p.stage == Stage::Measure && size == Some(p.job.artifact.size) ==> p.told(
            ProgressedView::Measured(size),
        ).stage == Stage::Extract,
        p.stage == Stage::Measure && size != Some(p.job.artifact.size) ==> p.told(
            ProgressedView::Measured(size),
        ).stage == Stage::Download,
        p.stage == Stage::Download ==> p.told(ProgressedView::Downloaded).stage == Stage::Extract,
        p.stage == Stage::Extract ==> p.told(ProgressedView::Extracted).stage == Stage::Save,
        p.stage == Stage::Save ==> p.told(ProgressedView::Saved).stage == Stage::Inspect,
{
}

/// Which originals are used, and what the user is told of them.
pub proof fn law_what_is_said_of_the_originals(
    p: PreparationView,
    b: u32,
    e: Seq<char>,
    plan: PlanView,
)
    ensures
        p.stage == Stage::Inspect ==> ({
            let now = p.told(ProgressedView::Inspected { has_snapshot: false, build: None });
            now.stage == Stage::Compare(BaseKind::Nothing) && now.base_note
                == "Could not tell which daily build this instance is on, so every changed file needs a manual choice."@
        }),
        p.stage == Stage::OpenSnapshot ==> ({
            let now = p.told(ProgressedView::SnapshotOpened);
            now.stage == Stage::Compare(BaseKind::Snapshot) && now.base_note
                == "Merge base: snapshot saved by a previous update."@
        }),
        p.stage == Stage::OpenRemote(b) ==> ({
            let now = p.told(ProgressedView::Found);
            now.stage == Stage::Compare(BaseKind::Remote) && now.base_note
                == "Merge base: daily "@ + decimal(b as nat)
                + " artifact, read on demand over the network."@
        }),
        p.stage == Stage::OpenRemote(b) ==> ({
            let now = p.told(ProgressedView::Gone);
            now.stage == Stage::Compare(BaseKind::Nothing) && now.base_note
                == "No artifact for daily "@ + decimal(b as nat)
                + " is still on GitHub, so every changed file needs a manual choice."@
        }),
        p.stage == Stage::OpenRemote(b) ==> ({
            let now = p.told(ProgressedView::Failed(e));
            now.stage == Stage::Compare(BaseKind::Nothing) && now.base_note
                == "Could not read the daily "@ + decimal(b as nat) + " artifact ("@ + e + ")."@
        }),
        p.stage is Compare ==> ({
            let now = p.told(ProgressedView::Compared(plan));
            now.stage == Stage::Done && now.plan == Some(plan) && now.base_note == p.base_note
                && now.old_build == p.old_build
        }),
{
}

/// The downloaded pack is deleted after the update unless it is to be kept.
pub proof fn law_when_the_download_is_deleted(job: ApplyJob, r: Option<&String>)
    requires
        call_ensures(ApplyJob::leftover, (&job,), r),
    ensures
        job.keep_download ==> r is None,
        !job.keep_download ==> (r is Some <==> job.download_path is Some),
        r matches Some(path) ==> job.download_path == Some(*path),
{
}

/// A download is as long as the reply says, and where it says nothing as GitHub lists
/// it.
pub proof fn law_how_long_a_download_is(announced: u64, listed: u64, r: u64)
    requires
        call_ensures(expected_length, (announced, listed), r),
    ensures
        announced > 0 ==> r == announced,
        announced == 0 ==> r == listed,
{
}

/// What is said of how far it has come.
pub proof fn law_what_is_said_of_progress(
    done: u64,
    total: u64,
    a: String,
    n: usize,
    all: usize,
    b: String,
)
    requires
        call_ensures(download_message, (done, total), a),
        call_ensures(count_message, (n, all), b),
    ensures
        a@ == size_text(done as nat) + " of "@ + size_text(total as nat),
        b@ == decimal(n as nat) + " / "@ + decimal(all as nat),
{
}

/// What is said where no build was found.
pub proof fn law_what_an_empty_list_says(variant: &str, r: String)
    requires
        call_ensures(nothing_found_message, (variant,), r),
    ensures
        r@ == "No non-expired `"@ + variant@
            + "` artifacts were found. GitHub keeps daily artifacts for a limited time."@,
{
}

} // verus!
