use gtnh_updater::apply::{
    apply, instance_cfg, steps, ApplyAction, ApplyEvent, ApplyInput, Step,
};
use gtnh_updater::merge::{Choice, parse_markers, MARK_LENGTH};
use gtnh_updater::mods::{ModDecision, ModKind, ModStateChange};
use gtnh_updater::plan::{BinaryConflict, CarryGroup, ConflictFile, Plan};
use gtnh_updater::prism::Ini;
use gtnh_updater::state::InstanceState;

fn sample() -> Plan {
    let mut plan = Plan::default();
    plan.auto_merged.push(("config/m.cfg".into(), "m\n".into()));
    let text = "<<<<<<< ours\no\n||||||| original\nb\n=======\nt\n>>>>>>> theirs\n";
    let mut merge = parse_markers(text, MARK_LENGTH);
    merge.hunks[0].choice = Choice::Ours;
    plan.conflicts.push(ConflictFile {
        rel: "config/c.cfg".into(),
        merge,
        no_base: false,
        reviewed: true,
    });
    plan.keep_yours.push("config/y.cfg".into());
    for (rel, take_pack) in [("a.dat", true), ("b.dat", false)] {
        plan.binary_conflicts.push(BinaryConflict {
            rel: rel.into(),
            ours_size: 1,
            theirs_size: 2,
            take_pack,
        });
    }
    for (file, keep) in [("gone.jar", false), ("mine.jar", true)] {
        plan.mods.decisions.push(ModDecision {
            rel: format!("mods/{file}"),
            file: file.into(),
            kind: ModKind::UserAdded,
            keep,
            size: 1,
        });
    }
    for (rel, enable) in [("mods/off.jar.disabled", true), ("mods/on.jar", false)] {
        plan.mods.state_changes.push(ModStateChange {
            rel: rel.into(),
            file: "x".into(),
            enable,
        });
    }
    for (name, enabled) in [("saves", true), ("screenshots", false)] {
        plan.carry.push(CarryGroup {
            name: name.into(),
            files: vec![format!("{name}/1"), format!("{name}/2")],
            bytes: 2,
            enabled,
        });
    }
    plan
}

fn shown(step: &Step) -> String {
    match step {
        Step::Write { rel, text } => format!("write {rel} {text:?}"),
        Step::Copy { rel } => format!("copy {rel}"),
        Step::CopyIfPresent { rel } => format!("carry {rel}"),
        Step::Leave { rel } => format!("leave {rel}"),
        Step::Keep { rel, file } => format!("keep {rel} {file}"),
        Step::Rename { from, to } => format!("rename {from} {to}"),
        Step::Configure => "configure".to_string(),
        Step::SaveState => "save state".to_string(),
        Step::MoveIntoPlace => "move into place".to_string(),
        Step::JoinGroup => "join group".to_string(),
    }
}

#[test]
fn every_decision_becomes_a_step() {
    let steps = steps(&sample());
    let rows: Vec<String> = steps.iter().map(shown).collect();
    assert_eq!(
        rows,
        vec![
            "write config/m.cfg \"m\\n\"",
            "write config/c.cfg \"o\\n\"",
            "copy config/y.cfg",
            "leave a.dat",
            "copy b.dat",
            "keep mods/mine.jar mine.jar",
            "rename mods/off.jar.disabled mods/off.jar",
            "rename mods/on.jar mods/on.jar.disabled",
            "carry saves/1",
            "carry saves/2",
            "configure",
            "save state",
            "move into place",
            "join group",
        ]
    );
    let labels: Vec<&str> = steps.iter().map(|s| s.label()).collect();
    assert_eq!(labels[5], "mine.jar");
    assert_eq!(labels[7], "mods/on.jar.disabled");
    assert_eq!(labels[8], "saves/1");
    assert_eq!(labels[11], "finishing");
}

#[test]
fn an_empty_plan_still_moves_into_place() {
    let rows: Vec<String> = steps(&Plan::default()).iter().map(shown).collect();
    assert_eq!(rows, vec!["configure", "save state", "move into place", "join group"]);
}

#[test]
fn only_the_staged_instance_is_written() {
    let input = ApplyInput {
        old_instance: "/i/old",
        staging: "/i/new.part",
        final_name: "new",
        instances_root: "/i",
        display_name: "New",
        state: InstanceState::default(),
    };
    assert_eq!(input.staged("config/a.cfg"), "/i/new.part/.minecraft/config/a.cfg");
    assert_eq!(input.original("config/a.cfg"), "/i/old/.minecraft/config/a.cfg");
    assert_eq!(input.final_dir(), "/i/new");
}

#[test]
fn a_custom_icon_is_carried() {
    let pack = Ini::parse("iconKey=pack\n");
    let with_icon = Ini::parse("[General]\niconKey=mine\nJvmArgs=-Xmx1G\n");
    let (cfg, icon) = instance_cfg(&pack, &with_icon, "n", "u", |f| f == "mine.jpeg" || f == "mine.svg");
    assert_eq!(icon.as_deref(), Some("mine.jpeg"));
    assert_eq!(cfg.get("General", "iconKey").unwrap(), "mine");
    assert_eq!(cfg.get("General", "JvmArgs").unwrap(), "-Xmx1G");
    assert_eq!(cfg.get("General", "name").unwrap(), "n");

    let (cfg, icon) = instance_cfg(&pack, &with_icon, "n", "u", |_| false);
    assert_eq!(icon, None);
    assert_eq!(cfg.get("General", "iconKey").unwrap(), "pack");

    let (_, icon) = instance_cfg(&pack, &Ini::default(), "n", "u", |_| true);
    assert_eq!(icon, None);
}

/// Go through a plan, refusing at that report; gives what was done in order, and
/// whether it came to its end.
fn go_through(plan: &Plan, refuse_at: usize) -> (Vec<String>, bool) {
    let mut applying = apply(plan);
    let mut seen = Vec::new();
    let mut reports = 0;
    loop {
        let event = match applying.action() {
            ApplyAction::Perform(step) => {
                seen.push(shown(step));
                ApplyEvent::Performed
            }
            ApplyAction::Report { done, total, label } => {
                seen.push(format!("report {done}/{total} {label}"));
                reports += 1;
                ApplyEvent::Reported(reports != refuse_at)
            }
            ApplyAction::Finish => return (seen, true),
            ApplyAction::Cancelled => return (seen, false),
        };
        applying.tell(event);
    }
}

/// Mods that are switched are done, but not counted.
#[test]
fn the_last_report_comes_before_the_move() {
    let (seen, finished) = go_through(&sample(), 1);
    assert!(finished);
    assert_eq!(seen.len(), 15);
    assert_eq!(seen[11], "save state");
    assert_eq!(seen[12], "report 9/9 finishing");
    assert_eq!(seen[13], "move into place");
    assert_eq!(seen[14], "join group");
}

#[test]
fn every_32nd_file_is_reported_and_a_refusal_stops() {
    let mut plan = Plan::default();
    for i in 0..65 {
        plan.keep_yours.push(format!("f{i}"));
    }
    plan.mods.state_changes.push(ModStateChange {
        rel: "mods/on.jar".into(),
        file: "on.jar".into(),
        enable: false,
    });
    let (seen, finished) = go_through(&plan, 0);
    assert!(finished);
    let reports: Vec<&String> = seen.iter().filter(|s| s.starts_with("report")).collect();
    assert_eq!(reports, vec!["report 32/66 f31", "report 64/66 f63", "report 66/66 finishing"]);
    assert_eq!(seen[32], "report 32/66 f31");

    let (seen, finished) = go_through(&plan, 2);
    assert!(!finished);
    assert_eq!(seen.last().unwrap(), "report 64/66 f63");
    assert!(!seen.iter().any(|s| s == "move into place"));

    let (seen, finished) = go_through(&plan, 3);
    assert!(finished);
    assert_eq!(seen.last().unwrap(), "join group");
}
