//! Headless modes. `--check` and `--plan` are read-only; `--apply` runs the same
//! update the GUI does, using a fixed policy instead of asking.
use vstd::prelude::*;
use vstd::string::*;

use crate::github::{DailyArtifact, VARIANT_JAVA17_26};
use crate::merge::{optional_text, Choice};
use crate::mods::{count, DecisionView, ModDecision, ModKind, ModPlanView};
use crate::plan::{BinaryView, CarryView, ConflictView, Plan, PlanView};
use crate::prism::Instance;
use crate::text::{chars_of, decimal, decimal_of, parse_nat, same, texts, u32_in};
use crate::util::{human_bytes, size_text};
use crate::worker::Prepared;

verus! {

pub const HELP: &'static str = "\
gtnh-updater — daily GTNH updater for Prism Launcher

  gtnh-updater [INSTANCE_DIR]            open the graphical updater
  gtnh-updater --check [--instance DIR]  print the installed and latest builds
  gtnh-updater --plan --instance DIR     download and compare, then report
  gtnh-updater --apply --instance DIR    create the updated instance

Options:
  --instance DIR       instance to update (default: auto-detected)
  --build N            daily build number (default: newest)
  --variant NAME       mmcprism-java17-26 (default) or mmcprism-java8
  --name NAME          name for the new instance (default: GTNH-daily-<build>)
  --dest-root DIR      where to create it (default: alongside the old instance)
  --on-conflict WHICH  pack (default) or yours — how --apply resolves conflicts
  --keep-removed       keep mods the new build dropped instead of removing them
  --keep-download      do not delete the downloaded pack zip afterwards
  --token TOKEN        GitHub token (default: $GH_TOKEN, $GITHUB_TOKEN, gh CLI)
  -h, --help           show this
";

// ---------------------------------------------------------------------------
// Arguments
// ---------------------------------------------------------------------------

#[derive(Debug)]
pub enum Mode {
    Gui(Option<String>),
    Check,
    Plan,
    Apply,
}

#[derive(Debug)]
pub struct Args {
    pub mode: Mode,
    pub instance: Option<String>,
    pub build: Option<u32>,
    pub variant: String,
    pub name: Option<String>,
    pub dest_root: Option<String>,
    pub on_conflict: Choice,
    pub keep_removed: bool,
    pub keep_download: bool,
    pub token: Option<String>,
}

/// What is wrong with the arguments.
#[derive(Debug)]
pub enum ArgError {
    /// The option needs a value.
    NeedsValue(String),
    /// The build is no number.
    BadBuild,
    /// There is no such way to resolve conflicts.
    BadPolicy(String),
    /// There is no such option.
    Unknown(String),
}

/// A mode as texts.
pub enum ModeView {
    Gui(Option<Seq<char>>),
    Check,
    Plan,
    Apply,
}

/// Arguments as texts.
pub struct ArgsView {
    pub mode: ModeView,
    pub instance: Option<Seq<char>>,
    pub build: Option<u32>,
    pub variant: Seq<char>,
    pub name: Option<Seq<char>>,
    pub dest_root: Option<Seq<char>>,
    pub on_conflict: Choice,
    pub keep_removed: bool,
    pub keep_download: bool,
    pub token: Option<Seq<char>>,
}

/// What is wrong, as texts.
pub enum ArgErrorView {
    NeedsValue(Seq<char>),
    BadBuild,
    BadPolicy(Seq<char>),
    Unknown(Seq<char>),
}

impl View for Mode {
    type V = ModeView;

    open spec fn view(&self) -> ModeView {
        match *self {
            Mode::Gui(dir) => ModeView::Gui(optional_text(dir)),
            Mode::Check => ModeView::Check,
            Mode::Plan => ModeView::Plan,
            Mode::Apply => ModeView::Apply,
        }
    }
}

impl View for Args {
    type V = ArgsView;

    open spec fn view(&self) -> ArgsView {
        ArgsView {
            mode: self.mode@,
            instance: optional_text(self.instance),
            build: self.build,
            variant: self.variant@,
            name: optional_text(self.name),
            dest_root: optional_text(self.dest_root),
            on_conflict: self.on_conflict,
            keep_removed: self.keep_removed,
            keep_download: self.keep_download,
            token: optional_text(self.token),
        }
    }
}

impl View for ArgError {
    type V = ArgErrorView;

    open spec fn view(&self) -> ArgErrorView {
        match *self {
            ArgError::NeedsValue(arg) => ArgErrorView::NeedsValue(arg@),
            ArgError::BadBuild => ArgErrorView::BadBuild,
            ArgError::BadPolicy(other) => ArgErrorView::BadPolicy(other@),
            ArgError::Unknown(arg) => ArgErrorView::Unknown(arg@),
        }
    }
}

impl ArgError {
    /// What to tell the user.
    pub fn message(&self) -> (r: String)
        ensures
            r@ == (match self@ {
                ArgErrorView::NeedsValue(arg) => arg + " needs a value"@,
                ArgErrorView::BadBuild => "--build"@,
                ArgErrorView::BadPolicy(other) =>
                    "--on-conflict must be `pack` or `yours`, got `"@ + other + "`"@,
                ArgErrorView::Unknown(arg) => "unknown option "@ + arg,
            }),
    {
        match self {
            ArgError::NeedsValue(arg) => {
                let mut out = arg.clone();
                out.append(" needs a value");
                out
            },
            ArgError::BadBuild => "--build".to_owned(),
            ArgError::BadPolicy(other) => {
                let mut out = "--on-conflict must be `pack` or `yours`, got `".to_owned();
                out.append(other.as_str());
                out.append("`");
                out
            },
            ArgError::Unknown(arg) => {
                let mut out = "unknown option ".to_owned();
                out.append(arg.as_str());
                out
            },
        }
    }
}

/// What a command line comes to.
pub enum CommandLine {
    Help,
    Run(ArgsView),
    Wrong(ArgErrorView),
}

/// What the arguments have said so far.
pub struct SoFar {
    pub args: ArgsView,
    pub positional: Option<Seq<char>>,
}

/// What one argument does.
pub enum Effect {
    Help,
    Wrong(ArgErrorView),
    Next(SoFar),
}

pub open spec fn no_args() -> SoFar {
    SoFar {
        args: ArgsView {
            mode: ModeView::Gui(None),
            instance: None,
            build: None,
            variant: "mmcprism-java17-26"@,
            name: None,
            dest_root: None,
            on_conflict: Choice::Theirs,
            keep_removed: false,
            keep_download: false,
            token: None,
        },
        positional: None,
    }
}

/// The options that take the argument behind them as their value.
pub open spec fn takes_value(arg: Seq<char>) -> bool {
    arg == "--instance"@ || arg == "--build"@ || arg == "--variant"@ || arg == "--name"@ || arg
        == "--dest-root"@ || arg == "--on-conflict"@ || arg == "--token"@
}

/// An option with its value.
pub open spec fn with_option(s: SoFar, arg: Seq<char>, value: Seq<char>) -> Effect {
    let a = s.args;
    if arg == "--instance"@ {
        Effect::Next(SoFar { args: ArgsView { instance: Some(value), ..a }, ..s })
    } else if arg == "--build"@ {
        match parse_nat(value, u32::MAX as nat) {
            Some(n) => Effect::Next(SoFar { args: ArgsView { build: Some(n as u32), ..a }, ..s }),
            None => Effect::Wrong(ArgErrorView::BadBuild),
        }
    } else if arg == "--variant"@ {
        Effect::Next(SoFar { args: ArgsView { variant: value, ..a }, ..s })
    } else if arg == "--name"@ {
        Effect::Next(SoFar { args: ArgsView { name: Some(value), ..a }, ..s })
    } else if arg == "--dest-root"@ {
        Effect::Next(SoFar { args: ArgsView { dest_root: Some(value), ..a }, ..s })
    } else if arg == "--on-conflict"@ {
        if value == "pack"@ || value == "theirs"@ {
            Effect::Next(SoFar { args: ArgsView { on_conflict: Choice::Theirs, ..a }, ..s })
        } else if value == "yours"@ || value == "ours"@ {
            Effect::Next(SoFar { args: ArgsView { on_conflict: Choice::Ours, ..a }, ..s })
        } else {
            Effect::Wrong(ArgErrorView::BadPolicy(value))
        }
    } else {
        Effect::Next(SoFar { args: ArgsView { token: Some(value), ..a }, ..s })
    }
}

/// An argument without a value.
pub open spec fn with_flag(s: SoFar, arg: Seq<char>) -> Effect {
    let a = s.args;
    if arg == "-h"@ || arg == "--help"@ {
        Effect::Help
    } else if arg == "--check"@ {
        Effect::Next(SoFar { args: ArgsView { mode: ModeView::Check, ..a }, ..s })
    } else if arg == "--plan"@ {
        Effect::Next(SoFar { args: ArgsView { mode: ModeView::Plan, ..a }, ..s })
    } else if arg == "--apply"@ {
        Effect::Next(SoFar { args: ArgsView { mode: ModeView::Apply, ..a }, ..s })
    } else if arg == "--keep-removed"@ {
        Effect::Next(SoFar { args: ArgsView { keep_removed: true, ..a }, ..s })
    } else if arg == "--keep-download"@ {
        Effect::Next(SoFar { args: ArgsView { keep_download: true, ..a }, ..s })
    } else if arg.len() > 0 && arg[0] == '-' {
        Effect::Wrong(ArgErrorView::Unknown(arg))
    } else {
        Effect::Next(SoFar { positional: Some(arg), ..s })
    }
}

/// The argument that names no option is the instance to open, and the one to
/// update unless another is given.
pub open spec fn completed(s: SoFar) -> ArgsView {
    ArgsView {
        mode: match s.args.mode {
            ModeView::Gui(_) => ModeView::Gui(s.positional),
            mode => mode,
        },
        instance: match s.args.instance {
            Some(dir) => Some(dir),
            None => s.positional,
        },
        ..s.args
    }
}

/// What the arguments from `i` on come to.
pub open spec fn command_line(raw: Seq<Seq<char>>, i: int, s: SoFar) -> CommandLine
    decreases raw.len() - i,
{
    if i >= raw.len() {
        CommandLine::Run(completed(s))
    } else if takes_value(raw[i]) {
        if i + 1 >= raw.len() {
            CommandLine::Wrong(ArgErrorView::NeedsValue(raw[i]))
        } else {
            match with_option(s, raw[i], raw[i + 1]) {
                Effect::Help => CommandLine::Help,
                Effect::Wrong(e) => CommandLine::Wrong(e),
                Effect::Next(s) => command_line(raw, i + 2, s),
            }
        }
    } else {
        match with_flag(s, raw[i]) {
            Effect::Help => CommandLine::Help,
            Effect::Wrong(e) => CommandLine::Wrong(e),
            Effect::Next(s) => command_line(raw, i + 1, s),
        }
    }
}

fn has_value(arg: &str) -> (r: bool)
    ensures
        r == takes_value(arg@),
{
    same(arg, "--instance") || same(arg, "--build") || same(arg, "--variant") || same(arg, "--name")
        || same(arg, "--dest-root") || same(arg, "--on-conflict") || same(arg, "--token")
}

/// Arguments while they are read.
struct Reading {
    args: Args,
    positional: Option<String>,
}

impl Reading {
    spec fn view(&self) -> SoFar {
        SoFar { args: self.args@, positional: optional_text(self.positional) }
    }
}

fn set_option(s: Reading, arg: &str, value: &str) -> (r: Result<Reading, ArgError>)
    requires
        takes_value(arg@),
    ensures
        match with_option(s@, arg@, value@) {
            Effect::Help => false,
            Effect::Wrong(e) => r matches Err(x) && x@ == e,
            Effect::Next(n) => r matches Ok(x) && x@ == n,
        },
{
    let mut s = s;
    if same(arg, "--instance") {
        s.args.instance = Some(value.to_owned());
    } else if same(arg, "--build") {
        match u32_in(value) {
            Some(n) => {
                s.args.build = Some(n);
            },
            None => return Err(ArgError::BadBuild),
        }
    } else if same(arg, "--variant") {
        s.args.variant = value.to_owned();
    } else if same(arg, "--name") {
        s.args.name = Some(value.to_owned());
    } else if same(arg, "--dest-root") {
        s.args.dest_root = Some(value.to_owned());
    } else if same(arg, "--on-conflict") {
        if same(value, "pack") || same(value, "theirs") {
            s.args.on_conflict = Choice::Theirs;
        } else if same(value, "yours") || same(value, "ours") {
            s.args.on_conflict = Choice::Ours;
        } else {
            return Err(ArgError::BadPolicy(value.to_owned()));
        }
    } else {
        s.args.token = Some(value.to_owned());
    }
    Ok(s)
}

fn set_flag(s: Reading, arg: &str) -> (r: Result<Option<Reading>, ArgError>)
    ensures
        match with_flag(s@, arg@) {
            Effect::Help => r matches Ok(None),
            Effect::Wrong(e) => r matches Err(x) && x@ == e,
            Effect::Next(n) => r matches Ok(Some(x)) && x@ == n,
        },
{
    let mut s = s;
    let v = chars_of(arg);
    if same(arg, "-h") || same(arg, "--help") {
        return Ok(None);
    } else if same(arg, "--check") {
        s.args.mode = Mode::Check;
    } else if same(arg, "--plan") {
        s.args.mode = Mode::Plan;
    } else if same(arg, "--apply") {
        s.args.mode = Mode::Apply;
    } else if same(arg, "--keep-removed") {
        s.args.keep_removed = true;
    } else if same(arg, "--keep-download") {
        s.args.keep_download = true;
    } else if v.len() > 0 && v[0] == '-' {
        return Err(ArgError::Unknown(arg.to_owned()));
    } else {
        s.positional = Some(arg.to_owned());
    }
    Ok(Some(s))
}

/// Read the arguments. `None` asks for help, and the process should just exit.
pub fn parse(raw: &Vec<String>) -> (r: Result<Option<Args>, ArgError>)
    ensures
        match command_line(texts(raw@), 0, no_args()) {
            CommandLine::Help => r matches Ok(None),
            CommandLine::Wrong(e) => r matches Err(x) && x@ == e,
            CommandLine::Run(a) => r matches Ok(Some(x)) && x@ == a,
        },
{
    let ghost all = texts(raw@);
    let ghost whole = command_line(all, 0, no_args());
    let mut s = Reading {
        args: Args {
            mode: Mode::Gui(None),
            instance: None,
            build: None,
            variant: VARIANT_JAVA17_26.to_owned(),
            name: None,
            dest_root: None,
            on_conflict: Choice::Theirs,
            keep_removed: false,
            keep_download: false,
            token: None,
        },
        positional: None,
    };
    let mut i: usize = 0;
    while i < raw.len()
        invariant
            all == texts(raw@),
            i <= raw.len(),
            whole == command_line(all, 0, no_args()),
            whole == command_line(all, i as int, s@),
        decreases raw.len() - i,
    {
        assert(all[i as int] == raw@[i as int]@);
        let arg = raw[i].as_str();
        if has_value(arg) {
            if i + 1 >= raw.len() {
                return Err(ArgError::NeedsValue(arg.to_owned()));
            }
            assert(all[i + 1] == raw@[i + 1]@);
            match set_option(s, arg, raw[i + 1].as_str()) {
                Ok(next) => {
                    s = next;
                },
                Err(e) => return Err(e),
            }
            i += 2;
        } else {
            match set_flag(s, arg) {
                Ok(Some(next)) => {
                    s = next;
                },
                Ok(None) => return Ok(None),
                Err(e) => return Err(e),
            }
            i += 1;
        }
    }
    let mut args = s.args;
    if let Mode::Gui(_) = args.mode {
        args.mode = Mode::Gui(s.positional.clone());
        assert(optional_text(s.positional) == match args.mode {
            Mode::Gui(p) => optional_text(p),
            _ => None,
        });
    }
    if args.instance.is_none() {
        args.instance = s.positional;
    }
    Ok(Some(args))
}

// ---------------------------------------------------------------------------
// Which instance, which build
// ---------------------------------------------------------------------------

/// The instances below one root, each with the build it is on as far as its
/// changelogs tell.
#[derive(Debug)]
pub struct RootListing {
    pub root: String,
    pub instances: Vec<(Instance, Option<u32>)>,
}

/// Why there is no instance to work on.
#[derive(Debug)]
pub enum InstanceError {
    /// Several GTNH instances lie below that root.
    Several(String),
    /// There is none.
    NoneFound,
}

impl InstanceError {
    /// What to tell the user.
    pub fn message(&self) -> (r: String)
        ensures
            r@ == (match *self {
                InstanceError::Several(root) => "several GTNH instances found in "@ + root@
                    + "; pass --instance"@,
                InstanceError::NoneFound => "no GTNH instance found; pass --instance DIR"@,
            }),
    {
        match self {
            InstanceError::Several(root) => {
                let mut out = "several GTNH instances found in ".to_owned();
                out.append(root.as_str());
                out.append("; pass --instance");
                out
            },
            InstanceError::NoneFound => "no GTNH instance found; pass --instance DIR".to_owned(),
        }
    }
}

/// The instances below a root that look like GTNH.
pub open spec fn gtnh_count(found: Seq<(Instance, Option<u32>)>) -> nat {
    count(found, |e: (Instance, Option<u32>)| e.1 is Some)
}

/// Every root before `n` has no GTNH instance.
pub open spec fn none_before(roots: Seq<RootListing>, n: int) -> bool {
    forall|k: int| 0 <= k < n ==> gtnh_count((#[trigger] roots[k]).instances@) == 0
}

fn count_gtnh(found: &Vec<(Instance, Option<u32>)>) -> (r: (usize, usize))
    ensures
        r.0 == gtnh_count(found@),
        r.0 > 0 ==> r.1 < found.len() && found@[r.1 as int].1 is Some,
{
    let ghost p = |e: (Instance, Option<u32>)| e.1 is Some;
    let mut n: usize = 0;
    let mut last: usize = 0;
    let mut i: usize = 0;
    assert(found@.take(0) =~= Seq::empty());
    while i < found.len()
        invariant
            p == (|e: (Instance, Option<u32>)| e.1 is Some),
            n <= i <= found.len(),
            n == count(found@.take(i as int), p),
            n > 0 ==> last < i && found@[last as int].1 is Some,
        decreases found.len() - i,
    {
        assert(found@.take(i + 1).drop_last() =~= found@.take(i as int));
        if found[i].1.is_some() {
            n += 1;
            last = i;
        }
        i += 1;
    }
    assert(found@.take(i as int) =~= found@);
    (n, last)
}

/// Locate the instance to work on where none is given: the only GTNH-looking one
/// below the first root that has any. Gives the number of the root and that of
/// the instance.
pub fn only_instance(roots: &Vec<RootListing>) -> (r: Result<(usize, usize), InstanceError>)
    ensures
        match r {
            Ok((root, at)) => {
                &&& root < roots.len()
                &&& at < roots@[root as int].instances.len()
                &&& roots@[root as int].instances@[at as int].1 is Some
                &&& gtnh_count(roots@[root as int].instances@) == 1
                &&& none_before(roots@, root as int)
            },
            Err(InstanceError::Several(dir)) => exists|n: int|
                {
                    &&& 0 <= n < roots.len()
                    &&& (#[trigger] roots@[n]).root@ == dir@
                    &&& gtnh_count(roots@[n].instances@) > 1
                    &&& none_before(roots@, n)
                },
            Err(InstanceError::NoneFound) => none_before(roots@, roots.len() as int),
        },
{
    let mut i: usize = 0;
    while i < roots.len()
        invariant
            i <= roots.len(),
            none_before(roots@, i as int),
        decreases roots.len() - i,
    {
        let (n, at) = count_gtnh(&roots[i].instances);
        if n == 1 {
            return Ok((i, at));
        }
        if n > 1 {
            assert(roots@[i as int].root@ == roots@[i as int].root@);
            return Err(InstanceError::Several(roots[i].root.clone()));
        }
        i += 1;
    }
    Err(InstanceError::NoneFound)
}

/// Why there is no build to install.
#[derive(Debug, Clone, Copy, PartialEq, Eq, Structural)]
pub enum BuildError {
    /// The wanted build cannot be had.
    Unavailable(u32),
    /// There are no builds.
    NoBuilds,
}

impl BuildError {
    /// What to tell the user.
    pub fn message(self) -> (r: String)
        ensures
            r@ == (match self {
                BuildError::Unavailable(b) => "daily "@ + decimal(b as nat)
                    + " is not available as an artifact"@,
                BuildError::NoBuilds => "no daily builds found"@,
            }),
    {
        match self {
            BuildError::Unavailable(b) => {
                let mut out = "daily ".to_owned();
                out.append(decimal_of(b as u64).as_str());
                out.append(" is not available as an artifact");
                out
            },
            BuildError::NoBuilds => "no daily builds found".to_owned(),
        }
    }
}

/// The build to install: the wanted one, which was searched for, or the newest.
pub fn choose_build(
    wanted: Option<u32>,
    searched: Option<DailyArtifact>,
    builds: &Vec<DailyArtifact>,
) -> (r: Result<DailyArtifact, BuildError>)
    ensures
        match wanted {
            Some(b) => match searched {
                Some(a) => r matches Ok(x) && x@ == a@,
                None => r matches Err(e) && e == BuildError::Unavailable(b),
            },
            None => if builds.len() > 0 {
                r matches Ok(x) && x@ == builds@[0]@
            } else {
                r matches Err(e) && e == BuildError::NoBuilds
            },
        },
{
    match wanted {
        Some(b) => match searched {
            Some(a) => Ok(a),
            None => Err(BuildError::Unavailable(b)),
        },
        None => {
            if builds.len() > 0 {
                Ok(builds[0].duplicate())
            } else {
                Err(BuildError::NoBuilds)
            }
        },
    }
}

/// What to do once it is known what is installed and what is available.
#[derive(Debug, Clone, Copy, PartialEq, Eq, Structural)]
pub enum Next {
    /// Nothing: that was all that was asked for.
    Stop,
    /// Nothing: the instance is on that build.
    UpToDate,
    /// Prepare the update.
    Prepare,
}

/// A check only looks; an instance that is on the build already is not updated,
/// though a plan for it can be had.
pub fn next_move(mode: &Mode, installed: Option<u32>, available: u32) -> (r: Next)
    ensures
        r == (if mode@ is Check {
            Next::Stop
        } else if installed == Some(available) && !(mode@ is Plan) {
            Next::UpToDate
        } else {
            Next::Prepare
        }),
{
    if let Mode::Check = mode {
        return Next::Stop;
    }
    let current = match installed {
        Some(b) => b == available,
        None => false,
    };
    if current {
        if let Mode::Plan = mode {
            return Next::Prepare;
        }
        return Next::UpToDate;
    }
    Next::Prepare
}

/// The name for an instance on that build.
pub open spec fn default_name_of(build: u32) -> Seq<char> {
    "GTNH-daily-"@ + decimal(build as nat)
}

/// The name for an instance on that build.
pub fn default_name(build: u32) -> (r: String)
    ensures
        r@ == default_name_of(build),
        r@ == "GTNH-daily-"@ + decimal(build as nat),
{
    let mut out = "GTNH-daily-".to_owned();
    out.append(decimal_of(build as u64).as_str());
    out
}

// ---------------------------------------------------------------------------
// Policy
// ---------------------------------------------------------------------------

/// A plan with every conflict decided the same way, and with the mods that the
/// pack removed kept if asked for.
pub open spec fn with_policy(plan: PlanView, choice: Choice, keep_removed: bool) -> PlanView {
    PlanView {
        conflicts: plan.conflicts.map_values(
            |c: ConflictView| crate::editor::one_side(c, choice),
        ),
        binary_conflicts: plan.binary_conflicts.map_values(
            |c: BinaryView| (BinaryView { take_pack: choice == Choice::Theirs, ..c }),
        ),
        mods: if keep_removed {
            ModPlanView {
                decisions: plan.mods.decisions.map_values(
                    |d: DecisionView| (DecisionView { keep: true, ..d }),
                ),
                ..plan.mods
            }
        } else {
            plan.mods
        },
        ..plan
    }
}

/// Decide everything in the plan by policy, instead of asking.
pub fn apply_policy(plan: Plan, choice: Choice, keep_removed: bool) -> (r: Plan)
    ensures
        r@ == with_policy(plan@, choice, keep_removed),
{
    let ghost prev = plan@;
    let ghost wanted = with_policy(prev, choice, keep_removed);
    let mut plan = plan;
    let mut conflicts = plan.conflicts;
    let ghost start = conflicts@;
    let mut i: usize = 0;
    while i < conflicts.len()
        invariant
            i <= conflicts.len(),
            conflicts.len() == start.len(),
            forall|j: int|
                0 <= j < i ==> #[trigger] conflicts@[j]@ == crate::editor::one_side(
                    start[j]@,
                    choice,
                ),
            forall|j: int| i <= j < start.len() ==> #[trigger] conflicts@[j] == start[j],
        decreases conflicts.len() - i,
    {
        conflicts[i].take_all(choice);
        i += 1;
    }
    plan.conflicts = conflicts;
    assert(crate::plan::conflict_views(plan.conflicts@) =~= wanted.conflicts);
    let mut binary = plan.binary_conflicts;
    let ghost start_b = binary@;
    let mut k: usize = 0;
    while k < binary.len()
        invariant
            k <= binary.len(),
            binary.len() == start_b.len(),
            forall|j: int|
                0 <= j < k ==> #[trigger] binary@[j]@ == (BinaryView {
                    take_pack: choice == Choice::Theirs,
                    ..start_b[j]@
                }),
            forall|j: int| k <= j < start_b.len() ==> #[trigger] binary@[j] == start_b[j],
        decreases binary.len() - k,
    {
        binary[k].take_pack = choice == Choice::Theirs;
        k += 1;
    }
    plan.binary_conflicts = binary;
    assert(crate::plan::binary_views(plan.binary_conflicts@) =~= wanted.binary_conflicts);
    if keep_removed {
        plan.mods.decisions = keep_every(plan.mods.decisions);
        assert(crate::mods::decision_views(plan.mods.decisions@) =~= wanted.mods.decisions);
    }
    plan
}

fn keep_every(decisions: Vec<ModDecision>) -> (r: Vec<ModDecision>)
    ensures
        crate::mods::decision_views(r@) == crate::mods::decision_views(decisions@).map_values(
            |d: DecisionView| (DecisionView { keep: true, ..d }),
        ),
{
    let mut out = decisions;
    let ghost start = out@;
    let mut i: usize = 0;
    while i < out.len()
        invariant
            i <= out.len(),
            out.len() == start.len(),
            forall|j: int|
                0 <= j < i ==> #[trigger] out@[j]@ == (DecisionView { keep: true, ..start[j]@ }),
            forall|j: int| i <= j < start.len() ==> #[trigger] out@[j] == start[j],
        decreases out.len() - i,
    {
        out[i].keep = true;
        i += 1;
    }
    assert(crate::mods::decision_views(out@) =~= crate::mods::decision_views(start).map_values(
        |d: DecisionView| (DecisionView { keep: true, ..d }),
    ));
    out
}

// ---------------------------------------------------------------------------
// The report
// ---------------------------------------------------------------------------

/// A text moved right to a width.
pub open spec fn right(s: Seq<char>, width: nat) -> Seq<char>
    decreases width,
{
    if s.len() >= width || width == 0 {
        s
    } else {
        seq![' '] + right(s, (width - 1) as nat)
    }
}

fn moved_right(s: &str, width: usize) -> (r: String)
    ensures
        r@ == right(s@, width as nat),
    decreases width,
{
    if chars_of(s).len() >= width || width == 0 {
        s.to_owned()
    } else {
        let rest = moved_right(s, width - 1);
        let mut out = " ".to_owned();
        proof {
            reveal_strlit(" ");
        }
        assert(out@ =~= seq![' ']);
        out.append(rest.as_str());
        out
    }
}

pub open spec fn count_row(n: nat, what: Seq<char>) -> Seq<char> {
    "  "@ + right(decimal(n), 6) + "  "@ + what
}

fn push_count(out: &mut Vec<String>, n: usize, what: &str)
    ensures
        texts(final(out)@) == texts(old(out)@).push(count_row(n as nat, what@)),
{
    let ghost o0 = texts(out@);
    let mut row = "  ".to_owned();
    row.append(moved_right(decimal_of(n as u64).as_str(), 6).as_str());
    row.append("  ");
    row.append(what);
    let ghost rv = row@;
    out.push(row);
    assert(texts(out@) =~= o0.push(rv));
}

fn push_text(out: &mut Vec<String>, text: &str)
    ensures
        texts(final(out)@) == texts(old(out)@).push(text@),
{
    let ghost o0 = texts(out@);
    out.push(text.to_owned());
    assert(texts(out@) =~= o0.push(text@));
}

pub open spec fn carry_row(g: CarryView) -> Seq<char> {
    "  "@ + right(size_text(g.bytes as nat), 10) + "  "@ + g.name + " ("@ + decimal(g.files.len())
        + " files)"@
}

pub open spec fn conflict_row(c: ConflictView) -> Seq<char> {
    "  "@ + right(decimal(c.merge.hunks.len()), 3) + " × "@ + c.rel + if c.no_base {
        " (no original)"@
    } else {
        ""@
    }
}

/// At most this many conflicts are listed.
pub const LISTED_CONFLICTS: usize = 40;

pub open spec fn removed_of(plan: PlanView) -> nat {
    count(plan.mods.decisions, |d: DecisionView| d.kind == ModKind::RemovedByPack)
}

pub open spec fn extra_of(plan: PlanView) -> nat {
    count(plan.mods.decisions, |d: DecisionView| d.kind == ModKind::UserAdded)
}

pub open spec fn config_rows(p: PlanView) -> Seq<Seq<char>> {
    seq![
        ""@,
        "config files"@,
        count_row(p.identical as nat, "identical"@),
        count_row(p.take_pack as nat, "taken from the pack (you had not edited them)"@),
        count_row(p.auto_merged.len(), "merged automatically"@),
        count_row(p.keep_yours.len(), "your version kept (pack unchanged)"@),
        count_row(p.conflicts.len(), "conflicts"@),
        count_row(p.binary_conflicts.len(), "non-text conflicts"@),
    ]
}

pub open spec fn mod_rows(p: PlanView) -> Seq<Seq<char>> {
    seq![
        ""@,
        "mods"@,
        count_row(p.mods.added.len(), "added by this build"@),
        count_row(p.mods.updated.len(), "updated"@),
        count_row(p.mods.unchanged as nat, "unchanged"@),
        count_row(removed_of(p), "removed by this build"@),
        count_row(extra_of(p), "yours, not in the pack"@),
        ""@,
        "user data"@,
    ]
}

pub open spec fn listed(p: PlanView) -> int {
    if p.conflicts.len() > 40 {
        40
    } else {
        p.conflicts.len() as int
    }
}

pub open spec fn conflict_rows(p: PlanView) -> Seq<Seq<char>> {
    if p.conflicts.len() == 0 {
        Seq::empty()
    } else {
        seq![""@, "conflicting files"@] + p.conflicts.take(listed(p)).map_values(
            |c: ConflictView| conflict_row(c),
        ) + if p.conflicts.len() > 40 {
            seq!["  … and "@ + decimal((p.conflicts.len() - 40) as nat) + " more"@]
        } else {
            Seq::empty()
        }
    }
}

/// The lines of the report.
pub open spec fn report_rows(p: crate::worker::PreparedView) -> Seq<Seq<char>> {
    (match p.old_build {
        Some(b) => seq![
            ""@,
            "updating daily "@ + decimal(b as nat) + " -> daily "@ + decimal(
                p.artifact.build as nat,
            ),
        ],
        None => Seq::empty(),
    }).push(p.base_note) + config_rows(p.plan) + mod_rows(p.plan) + p.plan.carry.map_values(
        |g: CarryView| carry_row(g),
    ) + conflict_rows(p.plan)
}

fn push_config(out: &mut Vec<String>, p: &Plan)
    ensures
        texts(final(out)@) == texts(old(out)@) + config_rows(p@),
{
    let ghost o0 = texts(out@);
    push_text(out, "");
    push_text(out, "config files");
    push_count(out, p.identical, "identical");
    push_count(out, p.take_pack, "taken from the pack (you had not edited them)");
    push_count(out, p.auto_merged.len(), "merged automatically");
    push_count(out, p.keep_yours.len(), "your version kept (pack unchanged)");
    push_count(out, p.conflicts.len(), "conflicts");
    push_count(out, p.binary_conflicts.len(), "non-text conflicts");
    assert(texts(out@) =~= o0 + config_rows(p@));
}

fn push_mods(out: &mut Vec<String>, p: &Plan)
    ensures
        texts(final(out)@) == texts(old(out)@) + mod_rows(p@),
{
    let ghost o0 = texts(out@);
    proof {
        lemma_kinds(p.mods.decisions@);
    }
    push_text(out, "");
    push_text(out, "mods");
    push_count(out, p.mods.added.len(), "added by this build");
    push_count(out, p.mods.updated.len(), "updated");
    push_count(out, p.mods.unchanged, "unchanged");
    push_count(out, p.mods.removed_count(), "removed by this build");
    push_count(out, p.mods.extra_count(), "yours, not in the pack");
    push_text(out, "");
    push_text(out, "user data");
    assert(texts(out@) =~= o0 + mod_rows(p@));
}

pub proof fn lemma_kinds(decisions: Seq<ModDecision>)
    ensures
        count(crate::mods::decision_views(decisions), |d: DecisionView|
            d.kind == ModKind::RemovedByPack) == count(decisions, |d: ModDecision|
            d.kind == ModKind::RemovedByPack),
        count(crate::mods::decision_views(decisions), |d: DecisionView|
            d.kind == ModKind::UserAdded) == count(decisions, |d: ModDecision|
            d.kind == ModKind::UserAdded),
    decreases decisions.len(),
{
    if decisions.len() > 0 {
        lemma_kinds(decisions.drop_last());
        assert(crate::mods::decision_views(decisions).drop_last()
            =~= crate::mods::decision_views(decisions.drop_last()));
    }
}

fn push_carry(out: &mut Vec<String>, p: &Plan)
    ensures
        texts(final(out)@) == texts(old(out)@) + p@.carry.map_values(
            |g: CarryView| carry_row(g),
        ),
{
    let ghost o0 = texts(out@);
    let ghost rows = p@.carry.map_values(|g: CarryView| carry_row(g));
    let mut i: usize = 0;
    assert(o0 + rows.take(0) =~= o0);
    while i < p.carry.len()
        invariant
            rows == p@.carry.map_values(|g: CarryView| carry_row(g)),
            i <= p.carry.len(),
            texts(out@) == o0 + rows.take(i as int),
        decreases p.carry.len() - i,
    {
        let ghost so_far = texts(out@);
        let g = &p.carry[i];
        let mut row = "  ".to_owned();
        row.append(moved_right(human_bytes(g.bytes).as_str(), 10).as_str());
        row.append("  ");
        row.append(g.name.as_str());
        row.append(" (");
        row.append(decimal_of(g.files.len() as u64).as_str());
        row.append(" files)");
        proof {
            assert(p@.carry[i as int] == g@);
            assert(g@.files.len() == g.files.len());
            assert(row@ =~= rows[i as int]);
        }
        out.push(row);
        proof {
            assert(texts(out@) =~= so_far.push(rows[i as int]));
            assert(o0 + rows.take(i + 1) =~= so_far.push(rows[i as int]));
        }
        i += 1;
    }
    assert(rows.take(i as int) =~= rows);
}

fn push_conflicts(out: &mut Vec<String>, p: &Plan)
    ensures
        texts(final(out)@) == texts(old(out)@) + conflict_rows(p@),
{
    let ghost start = texts(out@);
    if p.conflicts.len() == 0 {
        assert(texts(out@) =~= start + conflict_rows(p@));
        return;
    }
    push_text(out, "");
    push_text(out, "conflicting files");
    let ghost o0 = texts(out@);
    let n: usize = if p.conflicts.len() > LISTED_CONFLICTS {
        LISTED_CONFLICTS
    } else {
        p.conflicts.len()
    };
    let ghost rows = p@.conflicts.take(listed(p@)).map_values(|c: ConflictView| conflict_row(c));
    let mut i: usize = 0;
    assert(o0 + rows.take(0) =~= o0);
    while i < n
        invariant
            n == listed(p@),
            n <= p.conflicts.len(),
            rows == p@.conflicts.take(listed(p@)).map_values(|c: ConflictView| conflict_row(c)),
            i <= n,
            texts(out@) == o0 + rows.take(i as int),
        decreases n - i,
    {
        let ghost so_far = texts(out@);
        let c = &p.conflicts[i];
        let mut row = "  ".to_owned();
        row.append(moved_right(decimal_of(c.merge.hunks.len() as u64).as_str(), 3).as_str());
        row.append(" × ");
        row.append(c.rel.as_str());
        if c.no_base {
            row.append(" (no original)");
        } else {
            row.append("");
        }
        proof {
            assert(p@.conflicts.take(listed(p@))[i as int] == c@);
            assert(c@.merge.hunks.len() == c.merge.hunks.len());
            assert(row@ =~= rows[i as int]);
        }
        out.push(row);
        proof {
            assert(texts(out@) =~= so_far.push(rows[i as int]));
            assert(o0 + rows.take(i + 1) =~= so_far.push(rows[i as int]));
        }
        i += 1;
    }
    assert(rows.take(i as int) =~= rows);
    if p.conflicts.len() > LISTED_CONFLICTS {
        let mut row = "  … and ".to_owned();
        row.append(decimal_of((p.conflicts.len() - LISTED_CONFLICTS) as u64).as_str());
        row.append(" more");
        push_text(out, row.as_str());
    }
    assert(texts(out@) =~= start + conflict_rows(p@));
}

/// What the update would do, line by line.
pub fn report(prepared: &Prepared) -> (r: Vec<String>)
    ensures
        texts(r@) == report_rows(prepared@),
{
    let mut out: Vec<String> = Vec::new();
    assert(texts(out@) =~= Seq::empty());
    if let Some(b) = prepared.old_build {
        push_text(&mut out, "");
        let mut row = "updating daily ".to_owned();
        row.append(decimal_of(b as u64).as_str());
        row.append(" -> daily ");
        row.append(decimal_of(prepared.artifact.build as u64).as_str());
        push_text(&mut out, row.as_str());
    }
    push_text(&mut out, prepared.base_note.as_str());
    push_config(&mut out, &prepared.plan);
    push_mods(&mut out, &prepared.plan);
    push_carry(&mut out, &prepared.plan);
    push_conflicts(&mut out, &prepared.plan);
    assert(texts(out@) =~= report_rows(prepared@));
    out
}

/// What is installed and what is available, line by line.
pub fn headline(instance: &Instance, installed: Option<u32>, artifact: &DailyArtifact) -> (r: Vec<
    String,
>)
    ensures
        texts(r@) == seq![
            "instance : "@ + instance.name@ + " ("@ + instance.dir@ + ")"@,
            "installed: "@ + match installed {
                Some(b) => "daily "@ + decimal(b as nat),
                None => "unknown"@,
            },
            "available: "@ + ("daily "@ + decimal(artifact.build as nat) + " ("@ + artifact.date@
                + ")"@) + " ("@ + size_text(artifact.size as nat) + ")"@,
        ],
{
    let mut out: Vec<String> = Vec::new();
    let mut first = "instance : ".to_owned();
    first.append(instance.name.as_str());
    first.append(" (");
    first.append(instance.dir.as_str());
    first.append(")");
    let mut second = "installed: ".to_owned();
    match installed {
        Some(b) => {
            let mut text = "daily ".to_owned();
            text.append(decimal_of(b as u64).as_str());
            second.append(text.as_str());
        },
        None => {
            second.append("unknown");
        },
    }
    let mut third = "available: ".to_owned();
    third.append(artifact.label().as_str());
    third.append(" (");
    third.append(human_bytes(artifact.size).as_str());
    third.append(")");
    let ghost rows = seq![first@, second@, third@];
    out.push(first);
    out.push(second);
    out.push(third);
    assert(texts(out@) =~= rows);
    out
}

// ---------------------------------------------------------------------------
// Laws
// ---------------------------------------------------------------------------

/// Once a policy has decided, no conflict is left open, and where removed mods are
/// to be kept every one of them is.
pub proof fn law_a_policy_leaves_nothing_open(plan: PlanView, choice: Choice, keep_removed: bool)
    ensures
        count(
            with_policy(plan, choice, keep_removed).conflicts,
            |c: ConflictView| !c.reviewed,
        ) == 0,
        forall|d: DecisionView|
            keep_removed && #[trigger] with_policy(
                plan,
                choice,
                keep_removed,
            ).mods.decisions.contains(d) ==> d.keep,
{
    let all = with_policy(plan, choice, keep_removed).conflicts;
    lemma_none_open(all);
}

proof fn lemma_none_open(all: Seq<ConflictView>)
    requires
        forall|i: int| 0 <= i < all.len() ==> (#[trigger] all[i]).reviewed,
    ensures
        count(all, |c: ConflictView| !c.reviewed) == 0,
    decreases all.len(),
{
    if all.len() > 0 {
        let init = all.drop_last();
        assert forall|i: int| 0 <= i < init.len() implies (#[trigger] init[i]).reviewed by {
            assert(init[i] == all[i]);
        }
        lemma_none_open(init);
        assert(all[all.len() - 1].reviewed);
    }
}

proof fn lemma_options_differ()
    ensures
        "--instance"@.len() == 10,
        "--instance"@[0] == '-',
        "--build"@.len() == 7,
        "--build"@[0] == '-',
        "--build"@[2] == 'b',
        "--variant"@.len() == 9,
        "--variant"@[0] == '-',
        "--name"@.len() == 6,
        "--name"@[0] == '-',
        "--name"@[2] == 'n',
        "--dest-root"@.len() == 11,
        "--dest-root"@[0] == '-',
        "--on-conflict"@.len() == 13,
        "--on-conflict"@[0] == '-',
        "--token"@.len() == 7,
        "--token"@[0] == '-',
        "--token"@[2] == 't',
        "-h"@.len() == 2,
        "-h"@[0] == '-',
        "--help"@.len() == 6,
        "--help"@[0] == '-',
        "--help"@[2] == 'h',
        "--check"@.len() == 7,
        "--check"@[0] == '-',
        "--check"@[2] == 'c',
        "--plan"@.len() == 6,
        "--plan"@[0] == '-',
        "--plan"@[2] == 'p',
        "--apply"@.len() == 7,
        "--apply"@[0] == '-',
        "--apply"@[2] == 'a',
        "--keep-removed"@.len() == 14,
        "--keep-removed"@[0] == '-',
        "--keep-download"@.len() == 15,
        "--keep-download"@[0] == '-',
{
    reveal_strlit("--instance");
    reveal_strlit("--build");
    reveal_strlit("--variant");
    reveal_strlit("--name");
    reveal_strlit("--dest-root");
    reveal_strlit("--on-conflict");
    reveal_strlit("--token");
    reveal_strlit("-h");
    reveal_strlit("--help");
    reveal_strlit("--check");
    reveal_strlit("--plan");
    reveal_strlit("--apply");
    reveal_strlit("--keep-removed");
    reveal_strlit("--keep-download");
}

proof fn lemma_policies_differ()
    ensures
        "pack"@ != "yours"@,
        "pack"@ != "ours"@,
        "theirs"@ != "yours"@,
        "theirs"@ != "ours"@,
{
    reveal_strlit("pack");
    reveal_strlit("theirs");
    reveal_strlit("yours");
    reveal_strlit("ours");
    assert("pack"@.len() == 4 && "theirs"@.len() == 6 && "yours"@.len() == 5 && "ours"@.len() == 4);
    assert("pack"@[0] == 'p' && "ours"@[0] == 'o');
}

/// What each option with a value says, wherever it stands: it sets one thing and
/// nothing else, and what comes behind its value goes on from there. An option without
/// its value is refused, and so are a build that is no number and a policy that is
/// none of the four words.
pub proof fn law_what_each_option_says(raw: Seq<Seq<char>>, i: int, s: SoFar)
    requires
        0 <= i < raw.len(),
    ensures
        raw[i] == "--instance"@ && i + 1 < raw.len() ==> command_line(raw, i, s) == command_line(
            raw,
            i + 2,
            (SoFar { args: (ArgsView { instance: Some(raw[i + 1]), ..s.args }), ..s }),
        ),
        raw[i] == "--variant"@ && i + 1 < raw.len() ==> command_line(raw, i, s) == command_line(
            raw,
            i + 2,
            (SoFar { args: (ArgsView { variant: raw[i + 1], ..s.args }), ..s }),
        ),
        raw[i] == "--name"@ && i + 1 < raw.len() ==> command_line(raw, i, s) == command_line(
            raw,
            i + 2,
            (SoFar { args: (ArgsView { name: Some(raw[i + 1]), ..s.args }), ..s }),
        ),
        raw[i] == "--dest-root"@ && i + 1 < raw.len() ==> command_line(raw, i, s) == command_line(
            raw,
            i + 2,
            (SoFar { args: (ArgsView { dest_root: Some(raw[i + 1]), ..s.args }), ..s }),
        ),
        raw[i] == "--token"@ && i + 1 < raw.len() ==> command_line(raw, i, s) == command_line(
            raw,
            i + 2,
            (SoFar { args: (ArgsView { token: Some(raw[i + 1]), ..s.args }), ..s }),
        ),
        raw[i] == "--build"@ && i + 1 < raw.len() ==> match parse_nat(raw[i + 1], u32::MAX as nat) {
            Some(n) => command_line(raw, i, s) == command_line(
                raw,
                i + 2,
                (SoFar { args: (ArgsView { build: Some(n as u32), ..s.args }), ..s }),
            ),
            None => command_line(raw, i, s) == CommandLine::Wrong(ArgErrorView::BadBuild),
        },
        raw[i] == "--on-conflict"@ && i + 1 < raw.len() && (raw[i + 1] == "pack"@ || raw[i + 1]
            == "theirs"@) ==> command_line(raw, i, s) == command_line(
            raw,
            i + 2,
            (SoFar { args: (ArgsView { on_conflict: Choice::Theirs, ..s.args }), ..s }),
        ),
        raw[i] == "--on-conflict"@ && i + 1 < raw.len() && (raw[i + 1] == "yours"@ || raw[i + 1]
            == "ours"@) ==> command_line(raw, i, s) == command_line(
            raw,
            i + 2,
            (SoFar { args: (ArgsView { on_conflict: Choice::Ours, ..s.args }), ..s }),
        ),
        raw[i] == "--on-conflict"@ && i + 1 < raw.len() && raw[i + 1] != "pack"@ && raw[i + 1]
            != "theirs"@ && raw[i + 1] != "yours"@ && raw[i + 1] != "ours"@ ==> command_line(
            raw,
            i,
            s,
        ) == CommandLine::Wrong(ArgErrorView::BadPolicy(raw[i + 1])),
        i + 1 == raw.len() && (raw[i] == "--instance"@ || raw[i] == "--build"@ || raw[i]
            == "--variant"@ || raw[i] == "--name"@ || raw[i] == "--dest-root"@ || raw[i]
            == "--on-conflict"@ || raw[i] == "--token"@) ==> command_line(raw, i, s)
            == CommandLine::Wrong(ArgErrorView::NeedsValue(raw[i])),
{
    lemma_options_differ();
    lemma_policies_differ();
}

/// What each argument without a value says, wherever it stands: help ends everything,
/// the modes and the two flags set one thing each, whatever else starts with a dash is
/// refused, and anything else names the instance.
pub proof fn law_what_each_flag_says(raw: Seq<Seq<char>>, i: int, s: SoFar)
    requires
        0 <= i < raw.len(),
    ensures
        raw[i] == "-h"@ || raw[i] == "--help"@ ==> command_line(raw, i, s) == CommandLine::Help,
        raw[i] == "--check"@ ==> command_line(raw, i, s) == command_line(
            raw,
            i + 1,
            (SoFar { args: (ArgsView { mode: ModeView::Check, ..s.args }), ..s }),
        ),
        raw[i] == "--plan"@ ==> command_line(raw, i, s) == command_line(
            raw,
            i + 1,
            (SoFar { args: (ArgsView { mode: ModeView::Plan, ..s.args }), ..s }),
        ),
        raw[i] == "--apply"@ ==> command_line(raw, i, s) == command_line(
            raw,
            i + 1,
            (SoFar { args: (ArgsView { mode: ModeView::Apply, ..s.args }), ..s }),
        ),
        raw[i] == "--keep-removed"@ ==> command_line(raw, i, s) == command_line(
            raw,
            i + 1,
            (SoFar { args: (ArgsView { keep_removed: true, ..s.args }), ..s }),
        ),
        raw[i] == "--keep-download"@ ==> command_line(raw, i, s) == command_line(
            raw,
            i + 1,
            (SoFar { args: (ArgsView { keep_download: true, ..s.args }), ..s }),
        ),
        raw[i].len() == 0 || raw[i][0] != '-' ==> command_line(raw, i, s) == command_line(
            raw,
            i + 1,
            (SoFar { positional: Some(raw[i]), ..s }),
        ),
        raw[i].len() > 0 && raw[i][0] == '-' && raw[i] != "--instance"@ && raw[i] != "--build"@ && raw[i] != "--variant"@ && raw[i] != "--name"@ && raw[i] != "--dest-root"@ && raw[i] != "--on-conflict"@ && raw[i] != "--token"@ && raw[i] != "-h"@ && raw[i] != "--help"@ && raw[i] != "--check"@ && raw[i] != "--plan"@ && raw[i] != "--apply"@ && raw[i] != "--keep-removed"@ && raw[i] != "--keep-download"@ ==> command_line(raw, i, s)
            == CommandLine::Wrong(ArgErrorView::Unknown(raw[i])),
{
    lemma_options_differ();
}

/// What holds where nothing is said, and what the arguments come to at their end: the
/// one that names no option is the instance to open, and the one to update unless
/// another is given.
pub proof fn law_what_holds_unless_said(raw: Seq<Seq<char>>, s: SoFar)
    ensures
        no_args().positional is None,
        no_args().args.mode == ModeView::Gui(None),
        no_args().args.instance is None,
        no_args().args.build is None,
        no_args().args.variant == "mmcprism-java17-26"@,
        no_args().args.name is None,
        no_args().args.dest_root is None,
        no_args().args.on_conflict == Choice::Theirs,
        !no_args().args.keep_removed,
        !no_args().args.keep_download,
        no_args().args.token is None,
        ({
            let end = command_line(raw, raw.len() as int, s);
            &&& end is Run
            &&& s.args.mode is Gui ==> end->Run_0.mode == ModeView::Gui(s.positional)
            &&& !(s.args.mode is Gui) ==> end->Run_0.mode == s.args.mode
            &&& s.args.instance is Some ==> end->Run_0.instance == s.args.instance
            &&& s.args.instance is None ==> end->Run_0.instance == s.positional
            &&& end->Run_0 == (ArgsView {
                mode: end->Run_0.mode,
                instance: end->Run_0.instance,
                ..s.args
            })
        }),
{
}

/// What a policy decides: every hunk of every conflict the same way, every file that is
/// no text for the pack exactly where the pack is preferred, and the mods that the pack
/// removed only where they are to be kept. Nothing else of the plan changes.
pub proof fn law_what_a_policy_decides(
    plan: PlanView,
    choice: Choice,
    keep_removed: bool,
    i: int,
    k: int,
)
    ensures
        ({
            let out = with_policy(plan, choice, keep_removed);
            &&& out.auto_merged == plan.auto_merged && out.keep_yours == plan.keep_yours
            &&& out.carry == plan.carry && out.identical == plan.identical
            &&& out.take_pack == plan.take_pack && out.base_missing == plan.base_missing
            &&& out.mods.updated == plan.mods.updated && out.mods.added == plan.mods.added
            &&& out.mods.state_changes == plan.mods.state_changes
            &&& out.mods.unchanged == plan.mods.unchanged
            &&& out.conflicts.len() == plan.conflicts.len()
            &&& out.binary_conflicts.len() == plan.binary_conflicts.len()
            &&& out.mods.decisions.len() == plan.mods.decisions.len()
            &&& 0 <= i < plan.conflicts.len() ==> {
                let was = plan.conflicts[i];
                let now = out.conflicts[i];
                &&& now.rel == was.rel && now.no_base == was.no_base && now.reviewed
                &&& now.merge.segments == was.merge.segments
                &&& now.merge.manual == was.merge.manual
                &&& now.merge.hunks.len() == was.merge.hunks.len()
                &&& 0 <= k < was.merge.hunks.len() ==> {
                    let before = was.merge.hunks[k];
                    let behind = now.merge.hunks[k];
                    &&& behind.choice == choice
                    &&& behind.ours == before.ours && behind.theirs == before.theirs
                    &&& behind.base == before.base && behind.custom == before.custom
                }
            }
            &&& 0 <= i < plan.binary_conflicts.len() ==> {
                let was = plan.binary_conflicts[i];
                let now = out.binary_conflicts[i];
                &&& now.take_pack <==> choice == Choice::Theirs
                &&& now.rel == was.rel && now.ours_size == was.ours_size && now.theirs_size
                    == was.theirs_size
            }
            &&& 0 <= i < plan.mods.decisions.len() ==> {
                let was = plan.mods.decisions[i];
                let now = out.mods.decisions[i];
                &&& keep_removed ==> now.keep
                &&& !keep_removed ==> now.keep == was.keep
                &&& now.rel == was.rel && now.file == was.file && now.kind == was.kind && now.size
                    == was.size
            }
        }),
{
    if 0 <= i < plan.conflicts.len() && 0 <= k < plan.conflicts[i].merge.hunks.len() {
        crate::editor::law_one_choice_for_a_file(plan.conflicts[i], choice, k);
    }
}

/// A new instance is called after its build where no name is given.
pub proof fn law_the_default_name(build: u32)
    ensures
        default_name_of(build) == "GTNH-daily-"@ + decimal(build as nat),
{
}

/// A text is moved right by blanks in front of it, up to the width and no further.
pub proof fn law_moving_right(s: Seq<char>, width: nat)
    ensures
        s.len() >= width ==> right(s, width) == s,
        s.len() < width ==> right(s, width).len() == width,
        s.is_suffix_of(right(s, width)),
        forall|i: int|
            0 <= i < right(s, width).len() - s.len() ==> #[trigger] right(s, width)[i] == ' ',
    decreases width,
{
    if s.len() < width {
        let less = (width - 1) as nat;
        law_moving_right(s, less);
        let inner = right(s, less);
        let out = right(s, width);
        assert(out =~= seq![' '] + inner);
        assert(out.subrange(out.len() - s.len(), out.len() as int) =~= inner.subrange(
            inner.len() - s.len(),
            inner.len() as int,
        ));
        assert forall|i: int| 0 <= i < out.len() - s.len() implies #[trigger] out[i] == ' ' by {
            if i > 0 {
                assert(inner[i - 1] == ' ');
            }
        }
        if s.len() == less {
            assert(inner == s);
        }
    } else {
        assert(s.subrange(0, s.len() as int) =~= s);
    }
}

/// What the report counts, in this order and in these words: the files, then the mods,
/// then a line for each group that is carried over, then the conflicts.
pub proof fn law_what_the_report_counts(p: crate::worker::PreparedView, j: int)
    ensures
        ({
            let rows = report_rows(p);
            let h: int = if p.old_build is Some {
                3
            } else {
                1
            };
            &&& p.old_build matches Some(b) ==> rows[0] == ""@ && rows[1] == "updating daily "@
                + decimal(b as nat) + " -> daily "@ + decimal(p.artifact.build as nat)
            &&& rows[h - 1] == p.base_note
            &&& rows[h] == ""@ && rows[h + 1] == "config files"@
            &&& rows[h + 2] == "  "@ + right(decimal(p.plan.identical as nat), 6) + "  "@
                + "identical"@
            &&& rows[h + 3] == "  "@ + right(decimal(p.plan.take_pack as nat), 6) + "  "@
                + "taken from the pack (you had not edited them)"@
            &&& rows[h + 4] == "  "@ + right(decimal(p.plan.auto_merged.len()), 6) + "  "@
                + "merged automatically"@
            &&& rows[h + 5] == "  "@ + right(decimal(p.plan.keep_yours.len()), 6) + "  "@
                + "your version kept (pack unchanged)"@
            &&& rows[h + 6] == "  "@ + right(decimal(p.plan.conflicts.len()), 6) + "  "@
                + "conflicts"@
            &&& rows[h + 7] == "  "@ + right(decimal(p.plan.binary_conflicts.len()), 6) + "  "@
                + "non-text conflicts"@
            &&& rows[h + 8] == ""@ && rows[h + 9] == "mods"@
            &&& rows[h + 10] == "  "@ + right(decimal(p.plan.mods.added.len()), 6) + "  "@
                + "added by this build"@
            &&& rows[h + 11] == "  "@ + right(decimal(p.plan.mods.updated.len()), 6) + "  "@
                + "updated"@
            &&& rows[h + 12] == "  "@ + right(decimal(p.plan.mods.unchanged as nat), 6) + "  "@
                + "unchanged"@
            &&& rows[h + 13] == "  "@ + right(
                decimal(
                    count(
                        p.plan.mods.decisions,
                        |d: DecisionView| d.kind == ModKind::RemovedByPack,
                    ),
                ),
                6,
            ) + "  "@ + "removed by this build"@
            &&& rows[h + 14] == "  "@ + right(
                decimal(
                    count(p.plan.mods.decisions, |d: DecisionView| d.kind == ModKind::UserAdded),
                ),
                6,
            ) + "  "@ + "yours, not in the pack"@
            &&& rows[h + 15] == ""@ && rows[h + 16] == "user data"@
            &&& 0 <= j < p.plan.carry.len() ==> rows[h + 17 + j] == "  "@ + right(
                size_text(p.plan.carry[j].bytes as nat),
                10,
            ) + "  "@ + p.plan.carry[j].name + " ("@ + decimal(p.plan.carry[j].files.len())
                + " files)"@
        }),
        ({
            let rows = report_rows(p);
            let h: int = if p.old_build is Some {
                20
            } else {
                18
            };
            let at = h + p.plan.carry.len();
            let all = p.plan.conflicts;
            &&& all.len() == 0 ==> rows.len() == at
            &&& all.len() > 0 ==> rows[at] == ""@ && rows[at + 1] == "conflicting files"@
            &&& 0 <= j < all.len() && j < 40 ==> rows[at + 2 + j] == "  "@ + right(
                decimal(all[j].merge.hunks.len()),
                3,
            ) + " × "@ + all[j].rel + (if all[j].no_base {
                " (no original)"@
            } else {
                ""@
            })
            &&& 0 < all.len() <= 40 ==> rows.len() == at + 2 + all.len()
            &&& all.len() > 40 ==> rows.len() == at + 43 && rows[at + 42] == "  … and "@ + decimal(
                (all.len() - 40) as nat,
            ) + " more"@
        }),
{
}

/// What a mode does: a check stops, an instance that is on the build is left alone
/// unless a plan was asked for, and everything else is prepared.
pub proof fn law_what_a_mode_does(mode: Mode, installed: Option<u32>, available: u32, r: Next)
    requires
        call_ensures(next_move, (&mode, installed, available), r),
    ensures
        mode@ is Check ==> r == Next::Stop,
        mode@ is Plan ==> r == Next::Prepare,
        (mode@ is Apply || mode@ is Gui) && installed == Some(available) ==> r == Next::UpToDate,
        (mode@ is Apply || mode@ is Gui) && installed != Some(available) ==> r == Next::Prepare,
{
}

/// The instance to work on is the only one with a known build below the first root that
/// has any; several are an error, and so are none.
pub proof fn law_which_instance_is_worked_on(
    roots: Vec<RootListing>,
    n: int,
    r: Result<(usize, usize), InstanceError>,
)
    requires
        call_ensures(only_instance, (&roots,), r),
        0 <= n <= roots.len(),
        forall|k: int, j: int|
            0 <= k < n && 0 <= j < roots@[k].instances.len() ==> (
            #[trigger] roots@[k].instances@[j]).1 is None,
    ensures
        n == roots.len() ==> (r matches Err(e) && e is NoneFound),
        n < roots.len() && (exists|j: int|
            0 <= j < roots@[n].instances.len() && (#[trigger] roots@[n].instances@[j]).1 is Some)
            ==> match r {
            Ok((root, at)) => root == n && at < roots@[n].instances.len()
                && roots@[n].instances@[at as int].1 is Some && forall|j: int|
                0 <= j < roots@[n].instances.len() && j != at ==> (
                #[trigger] roots@[n].instances@[j]).1 is None,
            Err(InstanceError::Several(dir)) => dir@ == roots@[n].root@,
            Err(InstanceError::NoneFound) => false,
        },
{
    let known = |e: (Instance, Option<u32>)| e.1 is Some;
    assert forall|k: int| 0 <= k < n implies gtnh_count((#[trigger] roots@[k]).instances@) == 0 by {
        let all = roots@[k].instances@;
        assert forall|j: int| 0 <= j < all.len() implies !known(#[trigger] all[j]) by {
            assert(roots@[k].instances@[j].1 is None);
        }
        crate::mods::lemma_count_none(all, known);
    }
    if n < roots.len() && exists|j: int|
        0 <= j < roots@[n].instances.len() && (#[trigger] roots@[n].instances@[j]).1 is Some {
        let all = roots@[n].instances@;
        let j = choose|j: int|
            0 <= j < roots@[n].instances.len() && (#[trigger] roots@[n].instances@[j]).1 is Some;
        lemma_counted_once(all, known, j);
        match r {
            Ok((root, at)) => {
                if root < n {
                    assert(gtnh_count(roots@[root as int].instances@) == 0);
                } else if root > n {
                    assert(gtnh_count(roots@[n].instances@) == 0);
                }
                assert forall|i: int|
                    0 <= i < roots@[n].instances.len() && i != at implies (
                #[trigger] roots@[n].instances@[i]).1 is None by {
                    if all[i].1 is Some {
                        lemma_counted_twice(all, known, i, at as int);
                    }
                }
            },
            Err(InstanceError::Several(dir)) => {
                let k = choose|k: int|
                    {
                        &&& 0 <= k < roots.len()
                        &&& (#[trigger] roots@[k]).root@ == dir@
                        &&& gtnh_count(roots@[k].instances@) > 1
                        &&& none_before(roots@, k)
                    };
                if k < n {
                    assert(gtnh_count(roots@[k].instances@) == 0);
                } else if k > n {
                    assert(gtnh_count(roots@[n].instances@) == 0);
                }
            },
            Err(InstanceError::NoneFound) => {
                assert(gtnh_count(roots@[n].instances@) == 0);
            },
        }
    }
    if n == roots.len() {
        match r {
            Ok((root, at)) => {
                assert(gtnh_count(roots@[root as int].instances@) == 0);
            },
            Err(InstanceError::Several(dir)) => {
                let k = choose|k: int|
                    {
                        &&& 0 <= k < roots.len()
                        &&& (#[trigger] roots@[k]).root@ == dir@
                        &&& gtnh_count(roots@[k].instances@) > 1
                        &&& none_before(roots@, k)
                    };
                assert(gtnh_count(roots@[k].instances@) == 0);
            },
            Err(InstanceError::NoneFound) => {},
        }
    }
}

proof fn lemma_counted_once<T>(s: Seq<T>, p: spec_fn(T) -> bool, i: int)
    requires
        0 <= i < s.len(),
        p(s[i]),
    ensures
        count(s, p) >= 1,
    decreases s.len(),
{
    if i < s.len() - 1 {
        assert(s.drop_last()[i] == s[i]);
        lemma_counted_once(s.drop_last(), p, i);
    }
}

proof fn lemma_counted_twice<T>(s: Seq<T>, p: spec_fn(T) -> bool, i: int, j: int)
    requires
        0 <= i < s.len(),
        0 <= j < s.len(),
        i != j,
        p(s[i]),
        p(s[j]),
    ensures
        count(s, p) >= 2,
    decreases s.len(),
{
    let last = s.len() - 1;
    let init = s.drop_last();
    if i < last && j < last {
        assert(init[i] == s[i] && init[j] == s[j]);
        lemma_counted_twice(init, p, i, j);
    } else if i < last {
        assert(init[i] == s[i]);
        lemma_counted_once(init, p, i);
    } else {
        assert(init[j] == s[j]);
        lemma_counted_once(init, p, j);
    }
}

/// What is said where arguments, instances and builds are refused.
pub proof fn law_what_the_refusals_say(
    a: ArgError,
    said: String,
    b: InstanceError,
    told: String,
    c: BuildError,
    named: String,
)
    requires
        call_ensures(ArgError::message, (&a,), said),
        call_ensures(InstanceError::message, (&b,), told),
        call_ensures(BuildError::message, (c,), named),
    ensures
        a matches ArgError::NeedsValue(option) ==> said@ == option@ + " needs a value"@,
        a is BadBuild ==> said@ == "--build"@,
        a matches ArgError::BadPolicy(word) ==> said@
            == "--on-conflict must be `pack` or `yours`, got `"@ + word@ + "`"@,
        a matches ArgError::Unknown(option) ==> said@ == "unknown option "@ + option@,
        b matches InstanceError::Several(root) ==> told@ == "several GTNH instances found in "@
            + root@ + "; pass --instance"@,
        b is NoneFound ==> told@ == "no GTNH instance found; pass --instance DIR"@,
        c matches BuildError::Unavailable(n) ==> named@ == "daily "@ + decimal(n as nat)
            + " is not available as an artifact"@,
        c is NoBuilds ==> named@ == "no daily builds found"@,
{
}

/// A build that was asked for is taken or refused, and never replaced by another one; the
/// first of the list is taken only where none was asked for.
pub proof fn law_which_build_is_taken(
    wanted: Option<u32>,
    searched: Option<DailyArtifact>,
    builds: Vec<DailyArtifact>,
    r: Result<DailyArtifact, BuildError>,
)
    requires
        call_ensures(choose_build, (wanted, searched, &builds), r),
    ensures
        r is Ok <==> (wanted is Some && searched is Some) || (wanted is None && builds.len() > 0),
        wanted is Some ==> (r matches Ok(x) ==> x@ == searched->0@),
        wanted is None ==> (r matches Ok(x) ==> x@ == builds@[0]@),
        r matches Err(BuildError::Unavailable(n)) ==> wanted == Some(n),
        r matches Err(BuildError::NoBuilds) ==> wanted is None,
{
}

/// What is said in front of the question: the instance with its directory, the installed
/// build, the build at hand with its date and size.
pub proof fn law_what_stands_in_front(
    instance: Instance,
    installed: Option<u32>,
    artifact: DailyArtifact,
    r: Vec<String>,
)
    requires
        call_ensures(headline, (&instance, installed, &artifact), r),
    ensures
        r.len() == 3,
        r@[0]@ == "instance : "@ + instance.name@ + " ("@ + instance.dir@ + ")"@,
        installed is None ==> r@[1]@ == "installed: "@ + "unknown"@,
        installed matches Some(n) ==> r@[1]@ == "installed: "@ + ("daily "@ + decimal(n as nat)),
        r@[2]@ == "available: "@ + ("daily "@ + decimal(artifact.build as nat) + " ("@
            + artifact.date@ + ")"@) + " ("@ + size_text(artifact.size as nat) + ")"@,
{
    let rows = texts(r@);
    assert(rows.len() == 3);
    assert(rows[0] == r@[0]@ && rows[1] == r@[1]@ && rows[2] == r@[2]@);
}

} // verus!
