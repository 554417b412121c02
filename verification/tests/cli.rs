use gtnh_updater::cli::{
    apply_policy, choose_build, default_name, headline, next_move, only_instance, parse, report, Args,
    BuildError, InstanceError, Mode, Next, RootListing,
};
use gtnh_updater::github::{DailyArtifact, VARIANT_JAVA17_26};
use gtnh_updater::merge::{parse_markers, MARK_LENGTH, Choice};
use gtnh_updater::mods::{ModDecision, ModKind};
use gtnh_updater::plan::{BinaryConflict, CarryGroup, ConflictFile, Plan};
use gtnh_updater::prism::Instance;
use gtnh_updater::run::{Ending, Run, RunEvent, RunTask};
use gtnh_updater::worker::Prepared;

fn args(list: &[&str]) -> Result<Option<Args>, String> {
    let raw: Vec<String> = list.iter().map(|s| s.to_string()).collect();
    parse(&raw).map_err(|e| e.message())
}

fn conflict(rel: &str, no_base: bool) -> ConflictFile {
    let text = "<<<<<<< ours\no\n||||||| original\nb\n=======\nt\n>>>>>>> theirs\n";
    ConflictFile {
        rel: rel.into(),
        merge: parse_markers(text, MARK_LENGTH),
        no_base,
        reviewed: false,
    }
}

fn artifact(build: u32) -> DailyArtifact {
    let name = format!("GTNH-daily-2026-08-19+{build}-{VARIANT_JAVA17_26}.zip");
    DailyArtifact::parse(9, 1, &name, 1024).unwrap()
}

fn instance() -> Instance {
    Instance { dir: "/i/old".into(), name: "Old".into() }
}

fn prepared(plan: Plan) -> Prepared {
    Prepared {
        plan,
        staging: "/i/x.part".into(),
        artifact: artifact(690),
        instance: instance(),
        instances_root: "/i".into(),
        final_name: "x".into(),
        display_name: "x".into(),
        download_path: Some("/c/z.zip".into()),
        base_note: "Merge base: none.".into(),
        old_build: Some(641),
    }
}

#[test]
fn options_are_read() {
    let a = args(&[
        "--apply", "--instance", "/i/a", "--build", "690", "--variant", "v", "--name", "n",
        "--dest-root", "/d", "--on-conflict", "yours", "--keep-removed", "--keep-download",
        "--token", "t",
    ])
    .unwrap()
    .unwrap();
    assert!(matches!(a.mode, Mode::Apply));
    assert_eq!(a.instance.as_deref(), Some("/i/a"));
    assert_eq!(a.build, Some(690));
    assert_eq!(a.variant, "v");
    assert_eq!(a.name.as_deref(), Some("n"));
    assert_eq!(a.dest_root.as_deref(), Some("/d"));
    assert_eq!(a.on_conflict, Choice::Ours);
    assert!(a.keep_removed && a.keep_download);
    assert_eq!(a.token.as_deref(), Some("t"));
}

#[test]
fn no_arguments_open_the_window() {
    let a = args(&[]).unwrap().unwrap();
    assert!(matches!(a.mode, Mode::Gui(None)));
    assert_eq!(a.variant, VARIANT_JAVA17_26);
    assert_eq!(a.on_conflict, Choice::Theirs);
    assert!(!a.keep_removed && !a.keep_download);
}

#[test]
fn a_path_is_the_instance() {
    let a = args(&["/i/a"]).unwrap().unwrap();
    assert!(matches!(&a.mode, Mode::Gui(Some(p)) if p == "/i/a"));
    assert_eq!(a.instance.as_deref(), Some("/i/a"));
    let b = args(&["/i/a", "--check", "--instance", "/i/b"]).unwrap().unwrap();
    assert!(matches!(b.mode, Mode::Check));
    assert_eq!(b.instance.as_deref(), Some("/i/b"));
}

#[test]
fn wrong_arguments_are_named() {
    assert!(args(&["--plan", "-h"]).unwrap().is_none());
    assert!(args(&["--help", "--bogus"]).unwrap().is_none());
    assert_eq!(args(&["--bogus"]).err().as_deref(), Some("unknown option --bogus"));
    assert_eq!(args(&["--build"]).err().as_deref(), Some("--build needs a value"));
    assert_eq!(args(&["--build", "x"]).err().as_deref(), Some("--build"));
    assert_eq!(
        args(&["--on-conflict", "me"]).err().as_deref(),
        Some("--on-conflict must be `pack` or `yours`, got `me`")
    );
    assert_eq!(args(&["--on-conflict", "theirs"]).unwrap().unwrap().on_conflict, Choice::Theirs);
}

#[test]
fn the_only_gtnh_instance_is_found() {
    let root = |name: &str, builds: &[Option<u32>]| RootListing {
        root: name.into(),
        instances: builds.iter().map(|b| (instance(), *b)).collect(),
    };
    let roots = vec![root("/a", &[None]), root("/b", &[None, Some(5)]), root("/c", &[Some(1), Some(2)])];
    assert_eq!(only_instance(&roots).ok(), Some((1, 1)));
    let several = vec![root("/c", &[Some(1), Some(2)]), root("/b", &[Some(5)])];
    match only_instance(&several) {
        Err(e) => assert_eq!(
            e.message(),
            "several GTNH instances found in /c; pass --instance"
        ),
        Ok(_) => panic!("two instances"),
    }
    match only_instance(&vec![root("/a", &[None])]) {
        Err(e @ InstanceError::NoneFound) => {
            assert_eq!(e.message(), "no GTNH instance found; pass --instance DIR")
        }
        _ => panic!("no instance"),
    }
}

#[test]
fn the_wanted_build_or_the_newest_is_chosen() {
    let builds = vec![artifact(690), artifact(689)];
    assert_eq!(choose_build(None, None, &builds).unwrap().build, 690);
    assert_eq!(choose_build(Some(5), Some(artifact(5)), &builds).unwrap().build, 5);
    assert_eq!(choose_build(Some(5), None, &builds).err(), Some(BuildError::Unavailable(5)));
    assert_eq!(choose_build(None, None, &Vec::new()).err(), Some(BuildError::NoBuilds));
    assert_eq!(
        BuildError::Unavailable(5).message(),
        "daily 5 is not available as an artifact"
    );
    assert_eq!(BuildError::NoBuilds.message(), "no daily builds found");
    assert_eq!(default_name(690), "GTNH-daily-690");
}

#[test]
fn a_check_stops_and_a_current_instance_stays() {
    assert_eq!(next_move(&Mode::Check, Some(1), 2), Next::Stop);
    assert_eq!(next_move(&Mode::Apply, Some(2), 2), Next::UpToDate);
    assert_eq!(next_move(&Mode::Plan, Some(2), 2), Next::Prepare);
    assert_eq!(next_move(&Mode::Apply, None, 2), Next::Prepare);
}

#[test]
fn a_policy_decides_everything() {
    let mut plan = Plan::default();
    plan.conflicts.push(conflict("a", false));
    plan.binary_conflicts.push(BinaryConflict {
        rel: "b".into(),
        ours_size: 1,
        theirs_size: 2,
        take_pack: true,
    });
    plan.mods.decisions.push(ModDecision {
        rel: "mods/x.jar".into(),
        file: "x.jar".into(),
        kind: ModKind::RemovedByPack,
        keep: false,
        size: 1,
    });
    let plan = apply_policy(plan, Choice::Ours, true);
    assert_eq!(plan.conflicts[0].merge.render(), "o\n");
    assert_eq!(plan.unresolved(), 0);
    assert!(!plan.binary_conflicts[0].take_pack);
    assert!(plan.mods.decisions[0].keep);
    let plan = apply_policy(plan, Choice::Theirs, false);
    assert_eq!(plan.conflicts[0].merge.render(), "t\n");
    assert!(plan.binary_conflicts[0].take_pack);
    assert!(plan.mods.decisions[0].keep);
}

#[test]
fn the_report_counts_everything() {
    let mut plan = Plan { identical: 900, take_pack: 12, ..Plan::default() };
    plan.carry.push(CarryGroup {
        name: "saves".into(),
        files: vec!["saves/1".into()],
        bytes: 2048,
        enabled: true,
    });
    for i in 0..42 {
        plan.conflicts.push(conflict(&format!("c{i}"), i == 0));
    }
    let rows = report(&prepared(plan));
    assert_eq!(rows[0], "");
    assert_eq!(rows[1], "updating daily 641 -> daily 690");
    assert_eq!(rows[2], "Merge base: none.");
    assert_eq!(rows[4], "config files");
    assert_eq!(rows[5], "     900  identical");
    assert_eq!(rows[6], "      12  taken from the pack (you had not edited them)");
    assert_eq!(rows[9], "      42  conflicts");
    assert_eq!(rows[12], "mods");
    assert_eq!(rows[19], "user data");
    assert_eq!(rows[20], format!("  {:>10}  saves (1 files)", "2.0 KB"));
    assert_eq!(rows[22], "conflicting files");
    assert_eq!(rows[23], "    1 × c0 (no original)");
    assert_eq!(rows[24], "    1 × c1");
    assert_eq!(rows[63], "  … and 2 more");
    assert_eq!(rows.len(), 64);
}

#[test]
fn the_headline_says_what_is_installed() {
    assert_eq!(
        headline(&instance(), Some(641), &artifact(690)),
        vec![
            "instance : Old (/i/old)",
            "installed: daily 641",
            "available: daily 690 (2026-08-19) (1.0 KB)",
        ]
    );
    assert_eq!(headline(&instance(), None, &artifact(690))[1], "installed: unknown");
}

/// Run to the end, answering every task; gives the tasks in order.
fn run_through(list: &[&str], installed: Option<u32>) -> (Vec<String>, Option<Ending>) {
    let a = args(list).unwrap().unwrap();
    let mut run = Run::new(a, None, instance(), "/i".into(), installed);
    let mut seen = Vec::new();
    loop {
        let (waiting, task) = run.task();
        run = match task {
            RunTask::Builds(v) => {
                seen.push(format!("builds {v}"));
                waiting.tell(RunEvent::Builds(vec![artifact(690)]))
            }
            RunTask::Search { build, .. } => {
                seen.push(format!("search {build}"));
                waiting.tell(RunEvent::Searched(if build == 1 { None } else { Some(artifact(build)) }))
            }
            RunTask::Announce(rows) => {
                seen.push(format!("announce {}", rows.len()));
                waiting.tell(RunEvent::Announced)
            }
            RunTask::Place { root, name } => {
                seen.push(format!("place {root} {name}"));
                waiting.tell(RunEvent::Placed(format!("{name}-2")))
            }
            RunTask::Prepare(job) => {
                seen.push(format!("prepare {} {}", job.final_name, job.artifact.build));
                let mut plan = Plan::default();
                plan.conflicts.push(conflict("c", false));
                waiting.tell(RunEvent::Prepared(prepared(plan)))
            }
            RunTask::Review(_) => {
                seen.push("review".into());
                waiting.tell(RunEvent::Reviewed { now: "now".into(), from: Some("old".into()) })
            }
            RunTask::Name { root, name } => {
                seen.push(format!("name {root} {name}"));
                waiting.tell(RunEvent::Named {
                    name: format!("{name}-2"),
                    missing: if root == "/i" { None } else { Some("/new".into()) },
                })
            }
            RunTask::Discard { staging, made } => {
                seen.push(format!("discard {staging} {made:?}"));
                waiting.tell(RunEvent::Discarded)
            }
            RunTask::Apply(job) => {
                seen.push(format!(
                    "apply {} {} {} {:?} {:?}",
                    job.instances_root,
                    job.final_name,
                    job.plan.conflicts[0].merge.render().trim(),
                    job.state.build,
                    job.state.updated_from
                ));
                waiting.tell(RunEvent::Applied)
            }
            RunTask::Finish(end) => return (seen, Some(end)),
        };
    }
}

#[test]
fn a_check_only_looks() {
    let (seen, end) = run_through(&["--check"], None);
    assert_eq!(seen, vec!["builds mmcprism-java17-26", "announce 3"]);
    assert_eq!(end, Some(Ending::Checked));
}

#[test]
fn a_plan_is_thrown_away() {
    let (seen, end) = run_through(&["--plan"], Some(690));
    assert_eq!(
        seen,
        vec![
            "builds mmcprism-java17-26",
            "announce 3",
            "name /i GTNH-daily-690",
            "prepare GTNH-daily-690-2 690",
            "review",
            "discard /i/x.part None",
        ]
    );
    assert_eq!(end, Some(Ending::Planned));
}

/// A destination that was not there goes with the plan.
#[test]
fn a_plan_leaves_no_destination_behind() {
    let (seen, end) = run_through(&["--plan", "--dest-root", "/new/root"], None);
    assert_eq!(seen[2], "name /new/root GTNH-daily-690");
    assert_eq!(seen[5], "discard /i/x.part Some(\"/new\")");
    assert!(seen.iter().all(|task| !task.starts_with("place") && !task.starts_with("apply")));
    assert_eq!(end, Some(Ending::Planned));
}

#[test]
fn an_update_is_applied_by_policy() {
    let (seen, end) = run_through(
        &["--apply", "--build", "5", "--on-conflict", "yours", "--dest-root", "/d", "--name", "N"],
        Some(690),
    );
    assert_eq!(
        seen,
        vec![
            "builds mmcprism-java17-26",
            "search 5",
            "announce 3",
            "place /d N",
            "prepare N-2 5",
            "review",
            "apply /d N-2 o Some(5) Some(\"old\")",
        ]
    );
    assert_eq!(end, Some(Ending::Created));
}

#[test]
fn a_current_instance_is_not_updated() {
    assert_eq!(run_through(&["--apply"], Some(690)).1, Some(Ending::UpToDate));
    assert_eq!(
        run_through(&["--apply", "--build", "1"], None).1,
        Some(Ending::Failed(BuildError::Unavailable(1)))
    );
}
