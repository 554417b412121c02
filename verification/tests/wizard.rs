use gtnh_updater::github::{DailyArtifact, VARIANT_JAVA17_26, VARIANT_JAVA8};
use gtnh_updater::merge::{parse_markers, MARK_LENGTH};
use gtnh_updater::mods::{ModDecision, ModKind};
use gtnh_updater::plan::{CarryGroup, ConflictFile, Plan};
use gtnh_updater::prism::Instance;
use gtnh_updater::wizard::{
    build_label, build_note, decide_kind, matching, of_kind, preview, row_label, short_name,
    step_caption, summary_rows, tab_label, unresolved_note, InstanceRow, Report, Step, Tab, Wizard,
};
use gtnh_updater::worker::{Phase, Prepared};

fn artifact(build: u32) -> DailyArtifact {
    let name = format!("GTNH-daily-2026-08-19+{build}-{VARIANT_JAVA17_26}.zip");
    DailyArtifact::parse(9, 1, &name, 1024).unwrap()
}

fn row(name: &str, build: Option<u32>) -> InstanceRow {
    InstanceRow {
        inst: Instance { dir: format!("/i/{name}"), name: name.into() },
        build,
        has_snapshot: build == Some(7),
    }
}

fn wizard() -> Wizard {
    let mut w = Wizard::new(vec!["/i".into()], None, " tok ".into());
    w.tell(Report::Builds(vec![artifact(690), artifact(689)]));
    w.reload_instances(vec![row("plain", None), row("gtnh", Some(641))]);
    w
}

fn prepared() -> Prepared {
    Prepared {
        plan: Plan::default(),
        staging: "/i/x.part".into(),
        artifact: artifact(690),
        instance: Instance { dir: "/i/gtnh".into(), name: "gtnh".into() },
        instances_root: "/i".into(),
        final_name: "x".into(),
        display_name: "X".into(),
        download_path: None,
        base_note: "note".into(),
        old_build: Some(641),
    }
}

#[test]
fn a_given_path_wins_over_discovery() {
    let w = Wizard::new(vec!["/a".into(), "/b".into()], Some("/b"), String::new());
    assert_eq!((w.root_idx, w.roots.len()), (1, 2));
    let w = Wizard::new(vec!["/a".into()], Some("/c"), String::new());
    assert_eq!(w.root_idx, 0);
    assert_eq!(w.roots, vec!["/c", "/a"]);
    assert_eq!(w.variant, VARIANT_JAVA17_26);
}

#[test]
fn the_obvious_instance_is_chosen() {
    let w = wizard();
    assert_eq!(w.inst_idx, Some(1));
    assert_eq!(w.new_name, "GTNH-daily-690");
    assert!(w.ready());
    let mut none = wizard();
    none.reload_instances(vec![row("plain", None)]);
    assert_eq!(none.inst_idx, None);
    assert!(!none.ready());
}

#[test]
fn a_name_you_wrote_stays() {
    let mut w = wizard();
    w.pick_build(1);
    assert_eq!(w.new_name, "GTNH-daily-689");
    w.new_name = "mine".into();
    w.name_edited = true;
    w.pick_build(0);
    w.select_instance(0);
    w.tell(Report::Builds(vec![artifact(1)]));
    assert_eq!(w.new_name, "mine");
}

#[test]
fn builds_are_asked_for_once() {
    let mut w = wizard();
    assert_eq!(w.fetch_builds(), Some(Some("tok".to_string())));
    assert_eq!(w.fetch_builds(), None);
    w.tell(Report::Failed("no".into()));
    assert!(!w.fetching);
    assert_eq!(w.error.as_deref(), Some("no"));
    assert_eq!(w.step, Step::Setup);
    w.token = "  ".into();
    assert_eq!(w.fetch_builds(), Some(None));
}

#[test]
fn another_variant_drops_the_builds() {
    let mut w = wizard();
    assert!(!w.pick_variant(VARIANT_JAVA17_26));
    assert_eq!(w.builds.len(), 2);
    assert!(w.pick_variant(VARIANT_JAVA8));
    assert!(w.builds.is_empty());
}

#[test]
fn an_update_starts_with_what_was_chosen() {
    let mut w = wizard();
    assert!(w.start_update(Err("taken".into())).is_none());
    assert_eq!(w.error.as_deref(), Some("taken"));
    assert_eq!(w.step, Step::Setup);
    let job = w.start_update(Ok("GTNH-daily-690-2".into())).unwrap();
    assert_eq!(job.instance.dir, "/i/gtnh");
    assert_eq!(job.instances_root, "/i");
    assert_eq!(job.artifact.build, 690);
    assert_eq!(job.final_name, "GTNH-daily-690-2");
    assert_eq!(job.display_name, "GTNH-daily-690");
    assert_eq!(job.token.as_deref(), Some("tok"));
    assert_eq!((w.step, w.phase), (Step::Working, Phase::Download));
    assert_eq!(w.error, None);
}

#[test]
fn a_failed_job_leads_back() {
    let mut w = wizard();
    w.step = Step::Working;
    w.tell(Report::Failed("e".into()));
    assert_eq!(w.step, Step::Setup);
    w.tell(Report::Prepared(prepared()));
    assert_eq!((w.step, w.tab), (Step::Review, Tab::Conflicts));
    w.step = Step::Applying;
    w.tell(Report::Failed("e".into()));
    assert_eq!(w.step, Step::Review);
    assert!(w.prepared.is_some());
}

#[test]
fn what_was_reviewed_is_applied() {
    let mut w = wizard();
    assert!(w.start_apply("now".into(), None).is_none());
    w.tell(Report::Prepared(prepared()));
    w.keep_download = true;
    let job = w.start_apply("now".into(), Some("gtnh".into())).unwrap();
    assert_eq!(job.prepared_staging, "/i/x.part");
    assert_eq!(job.old_instance, "/i/gtnh");
    assert_eq!(job.state.build, Some(690));
    assert_eq!(job.state.artifact_id, Some(9));
    assert_eq!(job.state.updated_at.as_deref(), Some("now"));
    assert_eq!(job.state.updated_from.as_deref(), Some("gtnh"));
    assert!(job.keep_download);
    assert!(job.leftover().is_none());
    assert_eq!(w.step, Step::Applying);
    w.tell(Report::Applied("/i/x".into()));
    assert_eq!(w.step, Step::Done);
    assert_eq!(w.done_dir.as_deref(), Some("/i/x"));
    w.restart();
    assert_eq!((w.step, w.done_dir.is_none()), (Step::Setup, true));
}

#[test]
fn what_was_prepared_can_be_discarded() {
    let mut w = wizard();
    w.tell(Report::Prepared(prepared()));
    assert_eq!(w.discard().as_deref(), Some("/i/x.part"));
    assert_eq!(w.step, Step::Setup);
    assert_eq!(w.discard(), None);
}

#[test]
fn labels_say_what_they_are_about() {
    assert_eq!(step_caption(Step::Setup), "1 · Choose what to update");
    assert_eq!(step_caption(Step::Done), "Done");
    assert_eq!(tab_label(Tab::Conflicts, &Plan::default()), "Config conflicts (0)");
    assert_eq!(tab_label(Tab::Mods, &Plan::default()), "Mods (0)");
    assert_eq!(tab_label(Tab::Files, &Plan::default()), "Files");
    assert_eq!(row_label(&row("a", None)), "a\nversion unknown");
    assert_eq!(row_label(&row("a", Some(7))), "a\ndaily 7 · merge base saved");
    assert_eq!(build_label(&artifact(690)), "daily 690 (2026-08-19) · 1.0 KB");
    assert_eq!(build_note(1, 2), "Updating daily 1 → daily 2.");
    assert_eq!(build_note(2, 2), "This instance is already on daily 2.");
    assert_eq!(build_note(3, 2), "Careful: this would move daily 3 back to 2.");
    assert_eq!(unresolved_note(1), "1 conflict file still on the default (pack version)");
    assert_eq!(unresolved_note(2), "2 conflict files still on the default (pack version)");
}

#[test]
fn conflicts_are_filtered_whatever_the_case() {
    let mut plan = Plan::default();
    for rel in ["config/GregTech.cfg", "config/nei.cfg"] {
        plan.conflicts.push(ConflictFile {
            rel: rel.into(),
            merge: parse_markers("", MARK_LENGTH),
            no_base: false,
            reviewed: false,
        });
    }
    assert_eq!(matching(&plan, ""), vec![0, 1]);
    assert_eq!(matching(&plan, "GREG"), vec![0]);
    assert_eq!(matching(&plan, "CONFIG/N"), vec![1]);
    assert!(matching(&plan, "zzz").is_empty());
}

#[test]
fn paths_are_cut_before_the_name() {
    assert_eq!(short_name("a/b/c.cfg"), ("c.cfg".to_string(), "a/b/".to_string()));
    assert_eq!(short_name("c.cfg"), ("c.cfg".to_string(), String::new()));
    assert_eq!(short_name("a/"), (String::new(), "a/".to_string()));
}

#[test]
fn a_preview_shows_the_first_few() {
    let files = |n: usize| (0..n).map(|i| format!("f{i}")).collect::<Vec<String>>();
    assert_eq!(preview(&files(2)), "f0\nf1");
    assert_eq!(preview(&files(12)).lines().count(), 12);
    assert_eq!(preview(&files(15)).lines().last(), Some("… and 3 more"));
    assert_eq!(preview(&Vec::new()), "");
}

#[test]
fn one_kind_of_mod_is_decided_at_once() {
    let decision = |kind: ModKind| ModDecision {
        rel: "mods/x.jar".into(),
        file: "x.jar".into(),
        kind,
        keep: false,
        size: 1,
    };
    let mut all = vec![
        decision(ModKind::RemovedByPack),
        decision(ModKind::UserAdded),
        decision(ModKind::RemovedByPack),
    ];
    assert_eq!(of_kind(&all, ModKind::RemovedByPack), vec![0, 2]);
    decide_kind(&mut all, ModKind::RemovedByPack, true);
    let keep: Vec<bool> = all.iter().map(|d| d.keep).collect();
    assert_eq!(keep, vec![true, false, true]);
}

#[test]
fn the_summary_has_a_row_for_everything() {
    let mut plan = Plan { take_pack: 12, identical: 900, ..Plan::default() };
    plan.carry.push(CarryGroup { name: "s".into(), files: vec![], bytes: 1234, enabled: true });
    let rows = summary_rows(&plan);
    assert_eq!(rows.len(), 11);
    assert_eq!(rows[0], ("Config files taken from the pack", "12".to_string()));
    assert_eq!(rows[5], ("Identical files", "900".to_string()));
    assert_eq!(rows[10], ("User data carried over", "1.2 KB".to_string()));
}
