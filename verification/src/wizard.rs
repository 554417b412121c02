//! The wizard: pick an instance and a build, review what will change, apply. What
//! is on which screen, what a click or a finished job leads to, and what the
//! labels say.
use vstd::prelude::*;
use vstd::string::*;

use crate::cli::{default_name, default_name_of, extra_of, removed_of};
use crate::github::{artifact_views, ArtifactView, DailyArtifact, VARIANT_JAVA17_26};
use crate::merge::optional_text;
use crate::mods::{DecisionView, ModDecision, ModKind};
use crate::plan::{enabled_bytes, ConflictView, Plan, PlanView};
use crate::prism::{Instance, InstanceView};
use crate::state::InstanceState;
use crate::text::{
    chars_of, contains, decimal, decimal_of, join, joined, lowercase, occurs, pieces, same, split,
    string_of, texts, trim, trimmed,
};
use crate::util::{human_bytes, size_text};
use crate::worker::{ApplyJob, JobView, Phase, PrepareJob, Prepared, PreparedView};

verus! {

#[derive(Debug, Clone, Copy, PartialEq, Eq, Structural)]
pub enum Step {
    Setup,
    Working,
    Review,
    Applying,
    Done,
}

#[derive(Debug, Clone, Copy, PartialEq, Eq, Structural)]
pub enum Tab {
    Conflicts,
    Mods,
    Files,
    Summary,
}

/// An instance to choose.
#[derive(Debug)]
pub struct InstanceRow {
    pub inst: Instance,
    pub build: Option<u32>,
    pub has_snapshot: bool,
}

/// An instance to choose, as texts.
pub struct RowView {
    pub inst: InstanceView,
    pub build: Option<u32>,
    pub has_snapshot: bool,
}

impl View for InstanceRow {
    type V = RowView;

    open spec fn view(&self) -> RowView {
        RowView { inst: self.inst@, build: self.build, has_snapshot: self.has_snapshot }
    }
}

pub open spec fn row_views(s: Seq<InstanceRow>) -> Seq<RowView> {
    s.map_values(|r: InstanceRow| r@)
}

/// What the wizard knows and where it is.
#[derive(Debug)]
pub struct Wizard {
    pub step: Step,
    pub roots: Vec<String>,
    pub root_idx: usize,
    pub instances: Vec<InstanceRow>,
    pub inst_idx: Option<usize>,
    pub token: String,
    pub variant: String,
    pub builds: Vec<DailyArtifact>,
    pub build_idx: usize,
    pub fetching: bool,
    pub new_name: String,
    pub name_edited: bool,
    pub keep_download: bool,
    pub phase: Phase,
    pub msg: String,
    pub error: Option<String>,
    pub prepared: Option<Prepared>,
    pub tab: Tab,
    pub sel_conflict: usize,
    pub filter: String,
    pub done_dir: Option<String>,
}

/// The wizard as texts.
pub struct WizardView {
    pub step: Step,
    pub roots: Seq<Seq<char>>,
    pub root_idx: int,
    pub instances: Seq<RowView>,
    pub inst_idx: Option<usize>,
    pub token: Seq<char>,
    pub variant: Seq<char>,
    pub builds: Seq<ArtifactView>,
    pub build_idx: int,
    pub fetching: bool,
    pub new_name: Seq<char>,
    pub name_edited: bool,
    pub keep_download: bool,
    pub phase: Phase,
    pub msg: Seq<char>,
    pub error: Option<Seq<char>>,
    pub prepared: Option<PreparedView>,
    pub tab: Tab,
    pub sel_conflict: int,
    pub filter: Seq<char>,
    pub done_dir: Option<Seq<char>>,
}

pub open spec fn optional_prepared(p: Option<Prepared>) -> Option<PreparedView> {
    match p {
        Some(p) => Some(p@),
        None => None,
    }
}

impl View for Wizard {
    type V = WizardView;

    open spec fn view(&self) -> WizardView {
        WizardView {
            step: self.step,
            roots: texts(self.roots@),
            root_idx: self.root_idx as int,
            instances: row_views(self.instances@),
            inst_idx: self.inst_idx,
            token: self.token@,
            variant: self.variant@,
            builds: artifact_views(self.builds@),
            build_idx: self.build_idx as int,
            fetching: self.fetching,
            new_name: self.new_name@,
            name_edited: self.name_edited,
            keep_download: self.keep_download,
            phase: self.phase,
            msg: self.msg@,
            error: optional_text(self.error),
            prepared: optional_prepared(self.prepared),
            tab: self.tab,
            sel_conflict: self.sel_conflict as int,
            filter: self.filter@,
            done_dir: optional_text(self.done_dir),
        }
    }
}

// ---------------------------------------------------------------------------
// What leads where
// ---------------------------------------------------------------------------

/// What a background job reports.
#[derive(Debug)]
pub enum Report {
    Progress { phase: Phase, msg: String },
    Builds(Vec<DailyArtifact>),
    Prepared(Prepared),
    Applied(String),
    Failed(String),
}

/// A report as texts.
pub enum ReportView {
    Progress { phase: Phase, msg: Seq<char> },
    Builds(Seq<ArtifactView>),
    Prepared(PreparedView),
    Applied(Seq<char>),
    Failed(Seq<char>),
}

impl View for Report {
    type V = ReportView;

    open spec fn view(&self) -> ReportView {
        match *self {
            Report::Progress { phase, msg } => ReportView::Progress { phase, msg: msg@ },
            Report::Builds(builds) => ReportView::Builds(artifact_views(builds@)),
            Report::Prepared(p) => ReportView::Prepared(p@),
            Report::Applied(dir) => ReportView::Applied(dir@),
            Report::Failed(e) => ReportView::Failed(e@),
        }
    }
}

/// The first text equal to `t` at or behind `from`; the number of texts if there
/// is none.
pub open spec fn place_of(all: Seq<Seq<char>>, t: Seq<char>, from: int) -> int
    decreases all.len() - from,
{
    if from >= all.len() {
        all.len() as int
    } else if all[from] == t {
        from
    } else {
        place_of(all, t, from + 1)
    }
}

/// The first row at or behind `from` that looks like GTNH.
pub open spec fn obvious(rows: Seq<RowView>, from: int) -> Option<usize>
    decreases rows.len() - from,
{
    if from >= rows.len() {
        None
    } else if rows[from].build is Some {
        Some(from as usize)
    } else {
        obvious(rows, from + 1)
    }
}

/// A trimmed token, if there is anything to it.
pub open spec fn token_to_use(token: Seq<char>) -> Option<Seq<char>> {
    if trim(token).len() == 0 {
        None
    } else {
        Some(trim(token))
    }
}

impl WizardView {
    pub open spec fn chosen_build(self) -> Option<ArtifactView> {
        if 0 <= self.build_idx < self.builds.len() {
            Some(self.builds[self.build_idx])
        } else {
            None
        }
    }

    pub open spec fn chosen_instance(self) -> Option<RowView> {
        match self.inst_idx {
            Some(i) => if i < self.instances.len() {
                Some(self.instances[i as int])
            } else {
                None
            },
            None => None,
        }
    }

    pub open spec fn chosen_root(self) -> Option<Seq<char>> {
        if 0 <= self.root_idx < self.roots.len() {
            Some(self.roots[self.root_idx])
        } else {
            None
        }
    }

    /// With the name that goes with the chosen build, unless the user wrote one.
    pub open spec fn named(self) -> WizardView {
        if self.name_edited {
            self
        } else {
            match self.chosen_build() {
                Some(a) => WizardView { new_name: default_name_of(a.build), ..self },
                None => self,
            }
        }
    }

    pub open spec fn with_instance(self, i: usize) -> WizardView {
        WizardView { inst_idx: Some(i), ..self }.named()
    }

    /// With these instances to choose from, and the GTNH-looking one chosen if
    /// there is an obvious one.
    pub open spec fn with_instances(self, rows: Seq<RowView>) -> WizardView {
        let listed = WizardView { instances: rows, inst_idx: None, ..self };
        match obvious(rows, 0) {
            Some(i) => listed.with_instance(i),
            None => listed,
        }
    }

    /// What a report leads to. A job that fails leads back to where it was
    /// started.
    pub open spec fn told(self, r: ReportView) -> WizardView {
        match r {
            ReportView::Progress { phase, msg } => WizardView { phase, msg, ..self },
            ReportView::Builds(builds) => (WizardView {
                fetching: false,
                builds,
                build_idx: 0,
                ..self
            }).named(),
            ReportView::Prepared(p) => WizardView {
                prepared: Some(p),
                step: Step::Review,
                tab: Tab::Conflicts,
                sel_conflict: 0,
                ..self
            },
            ReportView::Applied(dir) => WizardView { done_dir: Some(dir), step: Step::Done, ..self },
            ReportView::Failed(e) => WizardView {
                fetching: false,
                error: Some(e),
                step: if self.step == Step::Working || self.step == Step::Applying {
                    if self.prepared is Some {
                        Step::Review
                    } else {
                        Step::Setup
                    }
                } else {
                    self.step
                },
                ..self
            },
        }
    }

    pub open spec fn can_start(self) -> bool {
        self.inst_idx is Some && self.builds.len() > 0 && trim(self.new_name).len() > 0
    }

    /// Everything that an update needs is chosen.
    pub open spec fn all_chosen(self) -> bool {
        self.chosen_instance() is Some && self.chosen_build() is Some && self.chosen_root() is Some
    }
}

impl Wizard {
    /// Begin. A path on the command line wins over auto-discovery: `parent` is the
    /// directory it lies in.
    pub fn new(roots: Vec<String>, parent: Option<&str>, token: String) -> (r: Self)
        ensures
            ({
                let known = texts(roots@);
                let all = match parent {
                    Some(p) => if known.contains(p@) {
                        known
                    } else {
                        known.insert(0, p@)
                    },
                    None => known,
                };
                r@ == (WizardView {
                    step: Step::Setup,
                    roots: all,
                    root_idx: match parent {
                        Some(p) => place_of(all, p@, 0),
                        None => 0,
                    },
                    instances: Seq::empty(),
                    inst_idx: None,
                    token: token@,
                    variant: "mmcprism-java17-26"@,
                    builds: Seq::empty(),
                    build_idx: 0,
                    fetching: false,
                    new_name: Seq::empty(),
                    name_edited: false,
                    keep_download: false,
                    phase: Phase::Query,
                    msg: Seq::empty(),
                    error: None,
                    prepared: None,
                    tab: Tab::Conflicts,
                    sel_conflict: 0,
                    filter: Seq::empty(),
                    done_dir: None,
                })
            }),
    {
        let ghost known = texts(roots@);
        let mut roots = roots;
        let mut root_idx: usize = 0;
        if let Some(p) = parent {
            let at = place(&roots, p);
            proof {
                lemma_place_of(known, p@, 0);
            }
            if at < roots.len() {
                assert(known[at as int] == p@);
                root_idx = at;
            } else {
                roots.insert(0, p.to_owned());
                proof {
                    assert(!known.contains(p@)) by {
                        if known.contains(p@) {
                            assert(known[known.index_of(p@)] == p@);
                        }
                    }
                    assert(texts(roots@) =~= known.insert(0, p@));
                    assert(place_of(known.insert(0, p@), p@, 0) == 0);
                }
            }
        }
        let r = Wizard {
            step: Step::Setup,
            roots,
            root_idx,
            instances: Vec::new(),
            inst_idx: None,
            token,
            variant: VARIANT_JAVA17_26.to_owned(),
            builds: Vec::new(),
            build_idx: 0,
            fetching: false,
            new_name: String::new(),
            name_edited: false,
            keep_download: false,
            phase: Phase::Query,
            msg: String::new(),
            error: None,
            prepared: None,
            tab: Tab::Conflicts,
            sel_conflict: 0,
            filter: String::new(),
            done_dir: None,
        };
        proof {
            assert(r@.instances =~= Seq::empty());
            assert(r@.builds =~= Seq::empty());
        }
        r
    }

    /// Give the new instance the name that goes with the chosen build, unless the
    /// user wrote one.
    pub fn refresh_default_name(&mut self)
        ensures
            final(self)@ == old(self)@.named(),
    {
        if self.name_edited {
            return;
        }
        if self.build_idx < self.builds.len() {
            assert(self@.builds[self.build_idx as int] == self.builds@[self.build_idx as int]@);
            self.new_name = default_name(self.builds[self.build_idx].build);
        }
    }

    /// Choose an instance.
    pub fn select_instance(&mut self, i: usize)
        ensures
            final(self)@ == old(self)@.with_instance(i),
    {
        self.inst_idx = Some(i);
        self.refresh_default_name();
    }

    /// Choose from these instances.
    pub fn reload_instances(&mut self, rows: Vec<InstanceRow>)
        ensures
            final(self)@ == old(self)@.with_instances(row_views(rows@)),
    {
        let ghost all = row_views(rows@);
        let mut found: Option<usize> = None;
        let mut i: usize = 0;
        while i < rows.len() && found.is_none()
            invariant
                all == row_views(rows@),
                i <= rows.len(),
                found is None ==> obvious(all, 0) == obvious(all, i as int),
                found is Some ==> obvious(all, 0) == found,
            decreases rows.len() - i,
        {
            assert(all[i as int] == rows@[i as int]@);
            if rows[i].build.is_some() {
                found = Some(i);
            }
            i += 1;
        }
        self.instances = rows;
        self.inst_idx = None;
        if let Some(i) = found {
            self.select_instance(i);
        }
    }

    /// Choose a build.
    pub fn pick_build(&mut self, i: usize)
        ensures
            final(self)@ == (WizardView { build_idx: i as int, ..old(self)@ }).named(),
    {
        self.build_idx = i;
        self.refresh_default_name();
    }

    /// Choose a variant. Gives whether its builds have to be asked for.
    pub fn pick_variant(&mut self, variant: &str) -> (r: bool)
        ensures
            r == (old(self)@.variant != variant@),
            final(self)@ == (if r {
                WizardView { variant: variant@, builds: Seq::empty(), ..old(self)@ }
            } else {
                old(self)@
            }),
    {
        if same(self.variant.as_str(), variant) {
            return false;
        }
        self.variant = variant.to_owned();
        self.builds = Vec::new();
        assert(self@.builds =~= Seq::empty());
        true
    }

    /// Ask for builds, unless somebody is asking already. Gives the token to ask
    /// with.
    pub fn fetch_builds(&mut self) -> (r: Option<Option<String>>)
        ensures
            r is None <==> old(self)@.fetching,
            r matches Some(token) ==> optional_text(token) == token_to_use(old(self)@.token),
            final(self)@ == (if old(self)@.fetching {
                old(self)@
            } else {
                WizardView { fetching: true, error: None, ..old(self)@ }
            }),
    {
        if self.fetching {
            return None;
        }
        self.fetching = true;
        self.error = None;
        Some(self.usable_token())
    }

    fn usable_token(&self) -> (r: Option<String>)
        ensures
            optional_text(r) == token_to_use(self@.token),
    {
        let t = trimmed(self.token.as_str());
        if chars_of(t.as_str()).len() == 0 {
            None
        } else {
            Some(t)
        }
    }

    /// What a report leads to.
    pub fn tell(&mut self, report: Report)
        ensures
            final(self)@ == old(self)@.told(report@),
    {
        match report {
            Report::Progress { phase, msg } => {
                self.phase = phase;
                self.msg = msg;
            },
            Report::Builds(builds) => {
                self.fetching = false;
                self.builds = builds;
                self.build_idx = 0;
                self.refresh_default_name();
            },
            Report::Prepared(p) => {
                self.prepared = Some(p);
                self.step = Step::Review;
                self.tab = Tab::Conflicts;
                self.sel_conflict = 0;
            },
            Report::Applied(dir) => {
                self.done_dir = Some(dir);
                self.step = Step::Done;
            },
            Report::Failed(e) => {
                self.fetching = false;
                self.error = Some(e);
                if self.step == Step::Working || self.step == Step::Applying {
                    self.step = if self.prepared.is_some() {
                        Step::Review
                    } else {
                        Step::Setup
                    };
                }
            },
        }
    }

    /// Whether an update can be started.
    pub fn ready(&self) -> (r: bool)
        ensures
            r == self@.can_start(),
    {
        self.inst_idx.is_some() && self.builds.len() > 0 && chars_of(
            trimmed(self.new_name.as_str()).as_str(),
        ).len() != 0
    }

    /// Start the update, given the directory name for the new instance or why
    /// there is none.
    pub fn start_update(&mut self, final_name: Result<String, String>) -> (r: Option<PrepareJob>)
        ensures
            r is Some <==> old(self)@.all_chosen() && final_name is Ok,
            r matches Some(job) ==> job@ == (JobView {
                    token: token_to_use(old(self)@.token),
                    instance: old(self)@.chosen_instance()->0.inst,
                    instances_root: old(self)@.chosen_root()->0,
                    artifact: old(self)@.chosen_build()->0,
                    final_name: final_name->Ok_0@,
                    display_name: old(self)@.new_name,
                }),
            final(self)@ == (if !old(self)@.all_chosen() {
                old(self)@
            } else {
                match final_name {
                    Ok(_) => WizardView {
                        error: None,
                        step: Step::Working,
                        phase: Phase::Download,
                        msg: "Starting…"@,
                        ..old(self)@
                    },
                    Err(e) => WizardView { error: Some(e@), ..old(self)@ },
                }
            }),
    {
        let at = match self.inst_idx {
            Some(i) => i,
            None => return None,
        };
        if at >= self.instances.len() || self.build_idx >= self.builds.len() || self.root_idx
            >= self.roots.len() {
            return None;
        }
        proof {
            assert(self@.instances[at as int] == self.instances@[at as int]@);
            assert(self@.builds[self.build_idx as int] == self.builds@[self.build_idx as int]@);
            assert(self@.roots[self.root_idx as int] == self.roots@[self.root_idx as int]@);
        }
        let final_name = match final_name {
            Ok(name) => name,
            Err(e) => {
                self.error = Some(e);
                return None;
            },
        };
        self.error = None;
        self.step = Step::Working;
        self.phase = Phase::Download;
        self.msg = "Starting…".to_owned();
        Some(
            PrepareJob {
                token: self.usable_token(),
                instance: self.instances[at].inst.duplicate(),
                instances_root: self.roots[self.root_idx].clone(),
                artifact: self.builds[self.build_idx].duplicate(),
                display_name: self.new_name.clone(),
                final_name,
            },
        )
    }

    /// Start applying what was reviewed, at this time and from an instance
    /// directory of that name.
    pub fn start_apply(&mut self, now: String, from: Option<String>) -> (r: Option<ApplyJob>)
        ensures
            r is Some <==> old(self)@.prepared is Some,
            r matches Some(job) ==> {
                let p = old(self)@.prepared->0;
                &&& job.plan@ == p.plan
                &&& job.prepared_staging@ == p.staging
                &&& job.old_instance@ == p.instance.dir
                &&& job.instances_root@ == p.instances_root
                &&& job.final_name@ == p.final_name
                &&& job.display_name@ == p.display_name
                &&& optional_text(job.download_path) == p.download_path
                &&& job.keep_download == old(self)@.keep_download
                &&& job.state.build == Some(p.artifact.build)
                &&& optional_text(job.state.date) == Some(p.artifact.date)
                &&& optional_text(job.state.variant) == Some(p.artifact.variant)
                &&& job.state.artifact_id == Some(p.artifact.id)
                &&& job.state.updated_at == Some(now)
                &&& job.state.updated_from == from
            },
            final(self)@ == (if old(self)@.prepared is Some {
                WizardView {
                    prepared: None,
                    step: Step::Applying,
                    phase: Phase::Apply,
                    ..old(self)@
                }
            } else {
                old(self)@
            }),
    {
        let prepared = match self.prepared.take() {
            Some(p) => p,
            None => return None,
        };
        self.step = Step::Applying;
        self.phase = Phase::Apply;
        let state = InstanceState::updated(&prepared.artifact, now, from);
        Some(
            ApplyJob {
                plan: prepared.plan,
                prepared_staging: prepared.staging,
                old_instance: prepared.instance.dir,
                instances_root: prepared.instances_root,
                final_name: prepared.final_name,
                display_name: prepared.display_name,
                state,
                download_path: prepared.download_path,
                keep_download: self.keep_download,
            },
        )
    }

    /// Give up what was prepared. Gives the staged instance, which is to be
    /// removed.
    pub fn discard(&mut self) -> (r: Option<String>)
        ensures
            optional_text(r) == (match old(self)@.prepared {
                Some(p) => Some(p.staging),
                None => None,
            }),
            final(self)@ == (WizardView { prepared: None, step: Step::Setup, ..old(self)@ }),
    {
        let staging = match self.prepared.take() {
            Some(p) => Some(p.staging),
            None => None,
        };
        self.step = Step::Setup;
        staging
    }

    /// Update another instance.
    pub fn restart(&mut self)
        ensures
            final(self)@ == (WizardView { done_dir: None, step: Step::Setup, ..old(self)@ }),
    {
        self.done_dir = None;
        self.step = Step::Setup;
    }
}

fn place(all: &Vec<String>, t: &str) -> (r: usize)
    ensures
        r == place_of(texts(all@), t@, 0),
        r <= all.len(),
{
    let mut i: usize = 0;
    while i < all.len()
        invariant
            i <= all.len(),
            place_of(texts(all@), t@, 0) == place_of(texts(all@), t@, i as int),
        decreases all.len() - i,
    {
        assert(texts(all@)[i as int] == all@[i as int]@);
        if same(all[i].as_str(), t) {
            return i;
        }
        i += 1;
    }
    i
}

proof fn lemma_place_of(all: Seq<Seq<char>>, t: Seq<char>, from: int)
    requires
        0 <= from <= all.len(),
    ensures
        from <= place_of(all, t, from) <= all.len(),
        place_of(all, t, from) < all.len() ==> all[place_of(all, t, from)] == t,
        place_of(all, t, from) == all.len() ==> forall|j: int|
            from <= j < all.len() ==> #[trigger] all[j] != t,
    decreases all.len() - from,
{
    if from < all.len() && all[from] != t {
        lemma_place_of(all, t, from + 1);
    }
}

// ---------------------------------------------------------------------------
// Labels
// ---------------------------------------------------------------------------

pub fn step_caption(step: Step) -> (r: &'static str)
    ensures
        r@ == (match step {
            Step::Setup => "1 · Choose what to update"@,
            Step::Working => "2 · Fetching and comparing"@,
            Step::Review => "3 · Review changes"@,
            Step::Applying => "4 · Creating the new instance"@,
            Step::Done => "Done"@,
        }),
{
    match step {
        Step::Setup => "1 · Choose what to update",
        Step::Working => "2 · Fetching and comparing",
        Step::Review => "3 · Review changes",
        Step::Applying => "4 · Creating the new instance",
        Step::Done => "Done",
    }
}

fn counted(front: &str, n: usize, back: &str) -> (r: String)
    ensures
        r@ == front@ + decimal(n as nat) + back@,
{
    let mut out = front.to_owned();
    out.append(decimal_of(n as u64).as_str());
    out.append(back);
    out
}

pub fn tab_label(tab: Tab, plan: &Plan) -> (r: String)
    ensures
        r@ == (match tab {
            Tab::Conflicts => "Config conflicts ("@ + decimal(plan.conflicts.len() as nat) + ")"@,
            Tab::Mods => "Mods ("@ + decimal(plan.mods.decisions.len() as nat) + ")"@,
            Tab::Files => "Files"@,
            Tab::Summary => "Summary"@,
        }),
{
    match tab {
        Tab::Conflicts => counted("Config conflicts (", plan.conflicts.len(), ")"),
        Tab::Mods => counted("Mods (", plan.mods.decisions.len(), ")"),
        Tab::Files => "Files".to_owned(),
        Tab::Summary => "Summary".to_owned(),
    }
}

/// How an instance is listed.
pub fn row_label(row: &InstanceRow) -> (r: String)
    ensures
        r@ == row.inst.name@ + "\n"@ + (match row.build {
            Some(b) => "daily "@ + decimal(b as nat),
            None => "version unknown"@,
        }) + if row.has_snapshot {
            " · merge base saved"@
        } else {
            ""@
        },
{
    let mut out = row.inst.name.clone();
    out.append("\n");
    let detail = match row.build {
        Some(b) => counted("daily ", b as usize, ""),
        None => "version unknown".to_owned(),
    };
    proof {
        reveal_strlit("");
        if row.build is Some {
            let b = row.build->0;
            assert("daily "@ + decimal(b as nat) + ""@ =~= "daily "@ + decimal(b as nat));
        }
    }
    out.append(detail.as_str());
    if row.has_snapshot {
        out.append(" · merge base saved");
    } else {
        out.append("");
    }
    out
}

/// How a build is listed.
pub fn build_label(a: &DailyArtifact) -> (r: String)
    ensures
        r@ == "daily "@ + decimal(a.build as nat) + " ("@ + a.date@ + ")"@ + " · "@ + size_text(
            a.size as nat,
        ),
{
    let mut out = a.label();
    out.append(" · ");
    out.append(human_bytes(a.size).as_str());
    out
}

/// What installing a build would mean for an instance on another.
pub fn build_note(installed: u32, chosen: u32) -> (r: String)
    ensures
        r@ == (if chosen > installed {
            "Updating daily "@ + decimal(installed as nat) + " → daily "@ + decimal(chosen as nat)
                + "."@
        } else if chosen == installed {
            "This instance is already on daily "@ + decimal(installed as nat) + "."@
        } else {
            "Careful: this would move daily "@ + decimal(installed as nat) + " back to "@ + decimal(
                chosen as nat,
            ) + "."@
        }),
{
    if chosen > installed {
        let mut out = "Updating daily ".to_owned();
        out.append(decimal_of(installed as u64).as_str());
        out.append(" → daily ");
        out.append(decimal_of(chosen as u64).as_str());
        out.append(".");
        out
    } else if chosen == installed {
        let mut out = "This instance is already on daily ".to_owned();
        out.append(decimal_of(installed as u64).as_str());
        out.append(".");
        out
    } else {
        let mut out = "Careful: this would move daily ".to_owned();
        out.append(decimal_of(installed as u64).as_str());
        out.append(" back to ");
        out.append(decimal_of(chosen as u64).as_str());
        out.append(".");
        out
    }
}

/// How many conflicts nobody has decided.
pub fn unresolved_note(unresolved: usize) -> (r: String)
    ensures
        r@ == decimal(unresolved as nat) + if unresolved == 1 {
            " conflict file still on the default (pack version)"@
        } else {
            " conflict files still on the default (pack version)"@
        },
{
    let mut out = decimal_of(unresolved as u64);
    if unresolved == 1 {
        out.append(" conflict file still on the default (pack version)");
    } else {
        out.append(" conflict files still on the default (pack version)");
    }
    out
}

/// A file is listed if the filter is empty or occurs in its path, whatever the
/// case of the letters.
pub open spec fn passes(filter: Seq<char>, rel: Seq<char>) -> bool {
    lowercase(filter).len() == 0 || occurs(lowercase(rel), lowercase(filter))
}

/// The numbers up to `n` of the items that satisfy `p`.
pub open spec fn places<T>(s: Seq<T>, p: spec_fn(T) -> bool, n: int) -> Seq<int>
    decreases n,
{
    if n <= 0 {
        Seq::empty()
    } else if p(s[n - 1]) {
        places(s, p, n - 1).push(n - 1)
    } else {
        places(s, p, n - 1)
    }
}

pub open spec fn as_ints(v: Seq<usize>) -> Seq<int> {
    v.map_values(|i: usize| i as int)
}

/// The conflicts that are listed under a filter.
pub fn matching(plan: &Plan, filter: &str) -> (r: Vec<usize>)
    ensures
        as_ints(r@) == places(
            plan@.conflicts,
            |c: ConflictView| passes(filter@, c.rel),
            plan.conflicts.len() as int,
        ),
{
    let lower = filter.to_lowercase();
    let ghost p = |c: ConflictView| passes(filter@, c.rel);
    let ghost all = plan@.conflicts;
    let empty = chars_of(lower.as_str()).len() == 0;
    let mut out: Vec<usize> = Vec::new();
    let mut i: usize = 0;
    assert(as_ints(out@) =~= Seq::empty());
    while i < plan.conflicts.len()
        invariant
            lower@ == lowercase(filter@),
            empty == (lower@.len() == 0),
            p == (|c: ConflictView| passes(filter@, c.rel)),
            all == plan@.conflicts,
            i <= plan.conflicts.len(),
            as_ints(out@) == places(all, p, i as int),
        decreases plan.conflicts.len() - i,
    {
        let ghost o0 = as_ints(out@);
        assert(all[i as int] == plan.conflicts@[i as int]@);
        if empty || contains(
            plan.conflicts[i].rel.as_str().to_lowercase().as_str(),
            lower.as_str(),
        ) {
            out.push(i);
            assert(as_ints(out@) =~= o0.push(i as int));
        }
        i += 1;
    }
    out
}

/// The last part of a path, and the directories in front of it.
pub fn short_name(rel: &str) -> (r: (String, String))
    ensures
        r.0@ == split(rel@, '/').last(),
        r.1@ + r.0@ == rel@,
{
    let parts = pieces(rel, '/');
    let ghost all = texts(parts@);
    proof {
        lemma_last_piece(rel@, '/');
    }
    assert(all.last() == parts@[parts.len() - 1]@);
    let name = parts[parts.len() - 1].clone();
    let v = chars_of(rel);
    let n = chars_of(name.as_str()).len();
    let dir = string_of(&v, 0, v.len() - n);
    proof {
        let k = rel@.len() - name@.len();
        assert(dir@ + name@ =~= rel@) by {
            assert(rel@.skip(k) == name@);
            assert(rel@ =~= rel@.subrange(0, k) + rel@.skip(k));
        }
    }
    (name, dir)
}

proof fn lemma_last_piece(s: Seq<char>, c: char)
    ensures
        split(s, c).len() > 0,
        split(s, c).last().len() <= s.len(),
        s.skip(s.len() - split(s, c).last().len()) == split(s, c).last(),
    decreases s.len(),
{
    crate::text::lemma_find(s, c, 0);
    let k = crate::text::find(s, c);
    if k < s.len() {
        let rest = s.skip(k + 1);
        lemma_last_piece(rest, c);
        let last = split(rest, c).last();
        assert(split(s, c).last() == last);
        assert(s.skip(s.len() - last.len()) =~= rest.skip(rest.len() - last.len()));
    } else {
        assert(s.skip(0) =~= s);
    }
}

/// First few paths in a group, for a hover tooltip.
pub fn preview(files: &Vec<String>) -> (r: String)
    ensures
        r@ == join(
            if files.len() > 12 {
                texts(files@).take(12).push(
                    "… and "@ + decimal((files.len() - 12) as nat) + " more"@,
                )
            } else {
                texts(files@)
            },
            "\n"@,
        ),
{
    let mut out: Vec<String> = Vec::new();
    let n: usize = if files.len() > 12 {
        12
    } else {
        files.len()
    };
    let mut i: usize = 0;
    while i < n
        invariant
            i <= n <= files.len(),
            out.len() == i,
            forall|j: int| 0 <= j < i ==> #[trigger] out@[j]@ == files@[j]@,
        decreases n - i,
    {
        out.push(files[i].clone());
        i += 1;
    }
    assert(texts(out@) =~= texts(files@).take(n as int));
    if files.len() > 12 {
        let ghost o0 = texts(out@);
        let more = counted("… and ", files.len() - 12, " more");
        let ghost mv = more@;
        out.push(more);
        assert(texts(out@) =~= o0.push(mv));
    } else {
        assert(texts(files@).take(n as int) =~= texts(files@));
    }
    joined(&out, "\n")
}

// ---------------------------------------------------------------------------
// Mods
// ---------------------------------------------------------------------------

/// The decisions of one kind.
pub fn of_kind(decisions: &Vec<ModDecision>, kind: ModKind) -> (r: Vec<usize>)
    ensures
        as_ints(r@) == places(
            decisions@,
            |d: ModDecision| d.kind == kind,
            decisions.len() as int,
        ),
{
    let ghost p = |d: ModDecision| d.kind == kind;
    let mut out: Vec<usize> = Vec::new();
    let mut i: usize = 0;
    assert(as_ints(out@) =~= Seq::empty());
    while i < decisions.len()
        invariant
            p == (|d: ModDecision| d.kind == kind),
            i <= decisions.len(),
            as_ints(out@) == places(decisions@, p, i as int),
        decreases decisions.len() - i,
    {
        let ghost o0 = as_ints(out@);
        if decisions[i].kind == kind {
            out.push(i);
            assert(as_ints(out@) =~= o0.push(i as int));
        }
        i += 1;
    }
    out
}

pub open spec fn if_kind(d: DecisionView, kind: ModKind, keep: bool) -> DecisionView {
    if d.kind == kind {
        DecisionView { keep, ..d }
    } else {
        d
    }
}

/// Keep every mod of one kind, or none.
pub fn decide_kind(decisions: &mut Vec<ModDecision>, kind: ModKind, keep: bool)
    ensures
        crate::mods::decision_views(final(decisions)@) == crate::mods::decision_views(
            old(decisions)@,
        ).map_values(|d: DecisionView| if_kind(d, kind, keep)),
{
    let ghost start = decisions@;
    let mut i: usize = 0;
    while i < decisions.len()
        invariant
            i <= decisions.len(),
            decisions.len() == start.len(),
            forall|j: int|
                0 <= j < i ==> #[trigger] decisions@[j]@ == if_kind(start[j]@, kind, keep),
            forall|j: int| i <= j < start.len() ==> #[trigger] decisions@[j] == start[j],
        decreases decisions.len() - i,
    {
        if decisions[i].kind == kind {
            decisions[i].keep = keep;
        }
        i += 1;
    }
    assert(crate::mods::decision_views(decisions@) =~= crate::mods::decision_views(
        start,
    ).map_values(|d: DecisionView| if_kind(d, kind, keep)));
}

// ---------------------------------------------------------------------------
// Summary
// ---------------------------------------------------------------------------

pub open spec fn pair_texts(v: Seq<(&'static str, String)>) -> Seq<(Seq<char>, Seq<char>)> {
    v.map_values(|p: (&'static str, String)| (p.0@, p.1@))
}

/// The rows of the summary: what, and how much of it.
pub open spec fn summary_of(p: PlanView) -> Seq<(Seq<char>, Seq<char>)> {
    seq![
        ("Config files taken from the pack"@, decimal(p.take_pack as nat)),
        ("Config files merged automatically"@, decimal(p.auto_merged.len())),
        ("Your version kept"@, decimal(p.keep_yours.len())),
        ("Conflicts needing a choice"@, decimal(p.conflicts.len())),
        ("Non-text conflicts"@, decimal(p.binary_conflicts.len())),
        ("Identical files"@, decimal(p.identical as nat)),
        ("Mods added"@, decimal(p.mods.added.len())),
        ("Mods updated"@, decimal(p.mods.updated.len())),
        ("Mods the pack removed"@, decimal(removed_of(p))),
        ("Your extra mods"@, decimal(extra_of(p))),
        ("User data carried over"@, size_text(enabled_bytes(p.carry) as nat)),
    ]
}

/// The rows of the summary.
pub fn summary_rows(plan: &Plan) -> (r: Vec<(&'static str, String)>)
    requires
        enabled_bytes(plan@.carry) <= u64::MAX,
    ensures
        pair_texts(r@) == summary_of(plan@),
{
    let mut out: Vec<(&'static str, String)> = Vec::new();
    proof {
        crate::cli::lemma_kinds(plan.mods.decisions@);
    }
    out.push(("Config files taken from the pack", decimal_of(plan.take_pack as u64)));
    out.push(("Config files merged automatically", decimal_of(plan.auto_merged.len() as u64)));
    out.push(("Your version kept", decimal_of(plan.keep_yours.len() as u64)));
    out.push(("Conflicts needing a choice", decimal_of(plan.conflicts.len() as u64)));
    out.push(("Non-text conflicts", decimal_of(plan.binary_conflicts.len() as u64)));
    out.push(("Identical files", decimal_of(plan.identical as u64)));
    out.push(("Mods added", decimal_of(plan.mods.added.len() as u64)));
    out.push(("Mods updated", decimal_of(plan.mods.updated.len() as u64)));
    out.push(("Mods the pack removed", decimal_of(plan.mods.removed_count() as u64)));
    out.push(("Your extra mods", decimal_of(plan.mods.extra_count() as u64)));
    out.push(("User data carried over", human_bytes(plan.carry_bytes())));
    assert(pair_texts(out@) =~= summary_of(plan@));
    out
}

// ---------------------------------------------------------------------------
// Laws
// ---------------------------------------------------------------------------

/// A name that the user wrote is never replaced, whatever is chosen or reported.
pub proof fn law_your_name_stays(
    w: WizardView,
    r: ReportView,
    rows: Seq<RowView>,
    i: usize,
)
    requires
        w.name_edited,
    ensures
        w.told(r).new_name == w.new_name,
        w.with_instances(rows).new_name == w.new_name,
        w.with_instance(i).new_name == w.new_name,
{
}

/// What was prepared is not lost when a job fails: the wizard is back at the
/// review, or at the setup where nothing was prepared.
pub proof fn law_a_failure_leads_back(w: WizardView, e: Seq<char>)
    requires
        w.step == Step::Working || w.step == Step::Applying,
    ensures
        w.told(ReportView::Failed(e)).prepared == w.prepared,
        w.told(ReportView::Failed(e)).step == Step::Review <==> w.prepared is Some,
        w.told(ReportView::Failed(e)).step == Step::Setup <==> w.prepared is None,
        w.told(ReportView::Failed(e)).error == Some(e),
{
}

proof fn lemma_obvious(rows: Seq<RowView>, from: int, at: int)
    requires
        0 <= from <= at <= rows.len(),
        rows.len() <= usize::MAX,
        forall|j: int| from <= j < at ==> (#[trigger] rows[j]).build is None,
        at < rows.len() ==> rows[at].build is Some,
    ensures
        at < rows.len() ==> obvious(rows, from) == Some(at as usize),
        at == rows.len() ==> obvious(rows, from) is None,
    decreases at - from,
{
    if from < at {
        assert(rows[from].build is None);
        lemma_obvious(rows, from + 1, at);
    }
}

/// Of the instances that are listed the first one whose build is known is chosen, and
/// none where there is no such one.
pub proof fn law_the_first_known_instance_is_chosen(w: WizardView, rows: Seq<RowView>, at: int)
    requires
        0 <= at <= rows.len() <= usize::MAX,
        forall|j: int| 0 <= j < at ==> (#[trigger] rows[j]).build is None,
        at < rows.len() ==> rows[at].build is Some,
    ensures
        w.with_instances(rows).instances == rows,
        at < rows.len() ==> w.with_instances(rows).inst_idx == Some(at as usize),
        at == rows.len() ==> w.with_instances(rows).inst_idx is None,
{
    lemma_obvious(rows, 0, at);
}

/// Where the user has written no name, the new instance is called after the build that
/// is chosen.
pub proof fn law_the_name_follows_the_build(w: WizardView, i: usize)
    requires
        !w.name_edited,
        0 <= w.build_idx < w.builds.len(),
    ensures
        w.named().new_name == "GTNH-daily-"@ + decimal(w.builds[w.build_idx].build as nat),
        w.with_instance(i).new_name == w.named().new_name,
        w.with_instance(i).inst_idx == Some(i),
        w.named().builds == w.builds,
        w.named().build_idx == w.build_idx,
{
}

/// A token is used without the blanks round it, and a blank one not at all.
pub proof fn law_which_token_is_used(front: Seq<char>, token: Seq<char>, back: Seq<char>)
    requires
        forall|i: int| 0 <= i < front.len() ==> crate::text::is_white(#[trigger] front[i]),
        forall|i: int| 0 <= i < back.len() ==> crate::text::is_white(#[trigger] back[i]),
        token.len() > 0 ==> !crate::text::is_white(token[0]) && !crate::text::is_white(
            token.last(),
        ),
    ensures
        token.len() > 0 ==> token_to_use(front + token + back) == Some(token),
        token.len() == 0 ==> token_to_use(front + token + back) is None,
{
    crate::text::law_trimming(front, token, back);
}

/// What each report changes: progress what is shown of it, builds the list and the
/// choice in it, a plan leads to the review, a new instance to the end.
pub proof fn law_what_each_report_changes(
    w: WizardView,
    phase: Phase,
    text: Seq<char>,
    builds: Seq<ArtifactView>,
    p: PreparedView,
)
    ensures
        ({
            let told = w.told(ReportView::Progress { phase, msg: text });
            &&& told.phase == phase && told.msg == text
            &&& told.step == w.step && told.prepared == w.prepared && told.error == w.error
        }),
        ({
            let told = w.told(ReportView::Builds(builds));
            &&& told.builds == builds && told.build_idx == 0 && !told.fetching
            &&& told.step == w.step && told.prepared == w.prepared && told.error == w.error
            &&& !w.name_edited && builds.len() > 0 ==> told.new_name == "GTNH-daily-"@ + decimal(
                builds[0].build as nat,
            )
        }),
        ({
            let told = w.told(ReportView::Prepared(p));
            &&& told.prepared == Some(p) && told.step == Step::Review && told.tab == Tab::Conflicts
            &&& told.sel_conflict == 0 && told.error == w.error
        }),
        ({
            let told = w.told(ReportView::Applied(text));
            &&& told.done_dir == Some(text) && told.step == Step::Done
            &&& told.prepared == w.prepared && told.error == w.error
        }),
        ({
            let told = w.told(ReportView::Failed(text));
            &&& told.error == Some(text) && !told.fetching && told.prepared == w.prepared
            &&& w.step == Step::Setup || w.step == Step::Review || w.step == Step::Done
                ==> told.step == w.step
        }),
{
}

/// An update can be started once an instance is chosen, there are builds, and the name
/// is not blank. It begins where the choices are among what is listed.
pub proof fn law_what_an_update_needs(w: WizardView)
    ensures
        w.can_start() <==> w.inst_idx is Some && w.builds.len() > 0 && !(forall|i: int|
            0 <= i < w.new_name.len() ==> crate::text::is_white(#[trigger] w.new_name[i])),
        w.all_chosen() <==> (w.inst_idx matches Some(i) && i < w.instances.len()) && 0
            <= w.build_idx < w.builds.len() && 0 <= w.root_idx < w.roots.len(),
        w.all_chosen() ==> w.chosen_instance() == Some(w.instances[w.inst_idx->0 as int])
            && w.chosen_build() == Some(w.builds[w.build_idx]) && w.chosen_root() == Some(
            w.roots[w.root_idx],
        ),
{
    let none: Seq<char> = Seq::empty();
    if forall|i: int|
        0 <= i < w.new_name.len() ==> crate::text::is_white(#[trigger] w.new_name[i]) {
        crate::text::law_trimming(w.new_name, none, none);
        assert(w.new_name + none + none =~= w.new_name);
    } else {
        crate::text::lemma_blank_is_white(w.new_name);
    }
}

/// The items that are listed are those that fit, all of them, in their order.
pub proof fn law_what_fits_is_listed<T>(s: Seq<T>, p: spec_fn(T) -> bool, n: int)
    requires
        0 <= n <= s.len(),
    ensures
        forall|i: int| #[trigger] places(s, p, n).contains(i) <==> 0 <= i < n && p(s[i]),
        forall|a: int, b: int|
            0 <= a < b < places(s, p, n).len() ==> #[trigger] places(s, p, n)[a]
                < #[trigger] places(s, p, n)[b],
    decreases n,
{
    if n > 0 {
        law_what_fits_is_listed(s, p, n - 1);
        let less = places(s, p, n - 1);
        let all = places(s, p, n);
        assert forall|i: int| #[trigger] all.contains(i) <==> 0 <= i < n && p(s[i]) by {
            if all.contains(i) {
                let k = all.index_of(i);
                if k < less.len() {
                    assert(less[k] == i);
                    assert(less.contains(i));
                }
            }
            if 0 <= i < n && p(s[i]) {
                if i < n - 1 {
                    assert(less.contains(i));
                    assert(all[less.index_of(i)] == i);
                } else {
                    assert(all[less.len() as int] == i);
                }
            }
        }
        assert forall|a: int, b: int| 0 <= a < b < all.len() implies #[trigger] all[a]
            < #[trigger] all[b] by {
            if b < less.len() {
                assert(less[a] < less[b]);
            } else {
                assert(less.contains(less[a]));
            }
        }
    }
}

/// A file is listed where the filter is empty, and where it stands somewhere in the
/// path, letters being compared without their case.
pub proof fn law_what_a_filter_lets_through(filter: Seq<char>, rel: Seq<char>)
    ensures
        lowercase(filter).len() == 0 ==> passes(filter, rel),
        passes(filter, rel) ==> exists|a: Seq<char>, b: Seq<char>|
            lowercase(rel) == #[trigger] (a + lowercase(filter) + b),
        forall|a: Seq<char>, b: Seq<char>|
            lowercase(rel) == #[trigger] (a + lowercase(filter) + b) ==> passes(filter, rel),
{
    let f = lowercase(filter);
    let r = lowercase(rel);
    let none: Seq<char> = Seq::empty();
    if f.len() == 0 {
        assert(r =~= none + f + r);
    } else if passes(filter, rel) {
        let i = crate::text::lemma_occurs_at(r, f);
        assert(r =~= r.take(i) + f + r.skip(i + f.len()));
    }
    assert forall|a: Seq<char>, b: Seq<char>| r == #[trigger] (a + f + b) implies passes(
        filter,
        rel,
    ) by {
        if f.len() > 0 {
            assert(r.subrange(a.len() as int, (a.len() + f.len()) as int) =~= f);
            crate::text::lemma_occurs(r, f, a.len() as int);
        }
    }
}

/// Deciding about one kind of mods sets whether they are kept, and leaves every other
/// mod and everything else about them alone.
pub proof fn law_deciding_a_kind(d: DecisionView, kind: ModKind, keep: bool)
    ensures
        d.kind == kind ==> if_kind(d, kind, keep).keep == keep,
        d.kind != kind ==> if_kind(d, kind, keep) == d,
        if_kind(d, kind, keep).rel == d.rel,
        if_kind(d, kind, keep).file == d.file,
        if_kind(d, kind, keep).kind == d.kind,
        if_kind(d, kind, keep).size == d.size,
{
}

/// The directory that was named on the command line is the one that is chosen: the
/// first of the list that equals it.
pub proof fn law_the_named_directory_is_chosen(all: Seq<Seq<char>>, t: Seq<char>, at: int)
    requires
        0 <= at < all.len(),
        all[at] == t,
        forall|j: int| 0 <= j < at ==> #[trigger] all[j] != t,
    ensures
        place_of(all, t, 0) == at,
{
    lemma_place_is(all, t, 0, at);
}

proof fn lemma_place_is(all: Seq<Seq<char>>, t: Seq<char>, from: int, at: int)
    requires
        0 <= from <= at < all.len(),
        all[at] == t,
        forall|j: int| from <= j < at ==> #[trigger] all[j] != t,
    ensures
        place_of(all, t, from) == at,
    decreases at - from,
{
    if from < at {
        assert(all[from] != t);
        lemma_place_is(all, t, from + 1, at);
    }
}

/// The summary says how much of each there is, under these names and in this order.
pub proof fn law_what_the_summary_says(p: PlanView)
    ensures
        summary_of(p).len() == 11,
        summary_of(p)[0] == ("Config files taken from the pack"@, decimal(p.take_pack as nat)),
        summary_of(p)[1] == ("Config files merged automatically"@, decimal(p.auto_merged.len())),
        summary_of(p)[2] == ("Your version kept"@, decimal(p.keep_yours.len())),
        summary_of(p)[3] == ("Conflicts needing a choice"@, decimal(p.conflicts.len())),
        summary_of(p)[4] == ("Non-text conflicts"@, decimal(p.binary_conflicts.len())),
        summary_of(p)[5] == ("Identical files"@, decimal(p.identical as nat)),
        summary_of(p)[6] == ("Mods added"@, decimal(p.mods.added.len())),
        summary_of(p)[7] == ("Mods updated"@, decimal(p.mods.updated.len())),
        summary_of(p)[8] == (
            "Mods the pack removed"@,
            decimal(
                crate::mods::count(
                    p.mods.decisions,
                    |d: DecisionView| d.kind == ModKind::RemovedByPack,
                ),
            ),
        ),
        summary_of(p)[9] == (
            "Your extra mods"@,
            decimal(
                crate::mods::count(
                    p.mods.decisions,
                    |d: DecisionView| d.kind == ModKind::UserAdded,
                ),
            ),
        ),
        summary_of(p)[10] == (
            "User data carried over"@,
            size_text(enabled_bytes(p.carry) as nat),
        ),
{
}

/// What installing a build would mean: forward, nothing, or back.
pub proof fn law_what_a_build_would_mean(installed: u32, chosen: u32, r: String)
    requires
        call_ensures(build_note, (installed, chosen), r),
    ensures
        chosen > installed ==> r@ == "Updating daily "@ + decimal(installed as nat) + " → daily "@
            + decimal(chosen as nat) + "."@,
        chosen == installed ==> r@ == "This instance is already on daily "@ + decimal(
            installed as nat,
        ) + "."@,
        chosen < installed ==> r@ == "Careful: this would move daily "@ + decimal(installed as nat)
            + " back to "@ + decimal(chosen as nat) + "."@,
{
}

/// The short name of a file is what stands behind its last slash, and the rest is where
/// it lies.
pub proof fn law_what_the_short_name_is(rel: &str, r: (String, String))
    requires
        call_ensures(short_name, (rel,), r),
    ensures
        rel@ == r.1@ + r.0@,
        !r.0@.contains('/'),
{
    crate::text::law_pieces_make_up_the_text(rel@, '/');
    let all = split(rel@, '/');
    assert(!all[all.len() - 1].contains('/'));
}

/// What the labels say: where the update stands, what a tab counts, what is known of an
/// instance, what a build is called, and how many files are still open.
pub proof fn law_what_the_labels_say(
    step: Step,
    caption: &'static str,
    tab: Tab,
    plan: Plan,
    label: String,
    row: InstanceRow,
    line: String,
    n: usize,
    note: String,
)
    requires
        call_ensures(step_caption, (step,), caption),
        call_ensures(tab_label, (tab, &plan), label),
        call_ensures(row_label, (&row,), line),
        call_ensures(unresolved_note, (n,), note),
    ensures
        step is Setup ==> caption@ == "1 · Choose what to update"@,
        step is Working ==> caption@ == "2 · Fetching and comparing"@,
        step is Review ==> caption@ == "3 · Review changes"@,
        step is Applying ==> caption@ == "4 · Creating the new instance"@,
        step is Done ==> caption@ == "Done"@,
        tab is Conflicts ==> label@ == "Config conflicts ("@ + decimal(plan.conflicts.len() as nat)
            + ")"@,
        tab is Mods ==> label@ == "Mods ("@ + decimal(plan.mods.decisions.len() as nat) + ")"@,
        tab is Files ==> label@ == "Files"@,
        tab is Summary ==> label@ == "Summary"@,
        (row.inst.name@ + "\n"@).is_prefix_of(line@),
        row.has_snapshot <==> line@ == row.inst.name@ + "\n"@ + (match row.build {
            Some(b) => "daily "@ + decimal(b as nat),
            None => "version unknown"@,
        }) + " · merge base saved"@,
        !row.has_snapshot && row.build is None ==> line@ == row.inst.name@ + "\n"@
            + "version unknown"@,
        !row.has_snapshot ==> (row.build matches Some(b) ==> line@ == row.inst.name@ + "\n"@ + (
        "daily "@ + decimal(b as nat))),
        n == 1 ==> note@ == decimal(1) + " conflict file still on the default (pack version)"@,
        n != 1 ==> note@ == decimal(n as nat)
            + " conflict files still on the default (pack version)"@,
{
    reveal_strlit("");
    reveal_strlit(" · merge base saved");
    let front = row.inst.name@ + "\n"@;
    let detail = match row.build {
        Some(b) => "daily "@ + decimal(b as nat),
        None => "version unknown"@,
    };
    assert(front + detail + ""@ =~= front + detail);
    assert(line@.subrange(0, front.len() as int) =~= front);
    assert((front + detail).len() != (front + detail + " · merge base saved"@).len());
}

} // verus!
