use gtnh_updater::plan::{
    build, crc32, index_tree, is_mod_file, settle, settle_by_original, Action, BuildInput, CarryGroup,
    Event, Plan, Verdict, LOOSE_FILES_GROUP,
};
use gtnh_updater::textmap::TextMap;
use std::collections::BTreeMap;

/// What there is to find: both trees, and what is known of the originals.
struct Fixture {
    ours: BTreeMap<String, Vec<u8>>,
    theirs: BTreeMap<String, Vec<u8>>,
    shipped: Vec<String>,
    text: BTreeMap<String, Vec<u8>>,
    digests: BTreeMap<String, u32>,
}

fn index(files: &BTreeMap<String, Vec<u8>>) -> TextMap<u64> {
    index_tree(files.iter().map(|(k, v)| (k.clone(), v.len() as u64)).collect())
}

impl Fixture {
    fn new() -> Self {
        Fixture {
            ours: BTreeMap::new(),
            theirs: BTreeMap::new(),
            shipped: Vec::new(),
            text: BTreeMap::new(),
            digests: BTreeMap::new(),
        }
    }

    fn old_file(&mut self, rel: &str, body: &[u8]) {
        self.ours.insert(rel.to_string(), body.to_vec());
    }

    fn new_file(&mut self, rel: &str, body: &[u8]) {
        self.theirs.insert(rel.to_string(), body.to_vec());
    }

    fn run(&self) -> (Plan, Vec<String>, usize) {
        let ours = index(&self.ours);
        let theirs = index(&self.theirs);
        let base = index_tree(self.shipped.iter().map(|p| (p.clone(), 1u64)).collect());
        let mut scan = build(BuildInput { ours: &ours, theirs: &theirs }, &base);
        let mut asked = Vec::new();
        let mut reports = 0;
        loop {
            scan = match scan.action() {
                Action::Report { .. } => {
                    reports += 1;
                    scan.tell(Event::Reported(true))
                }
                Action::Look(rel) => scan.tell(Event::Looked {
                    ours: self.ours[&rel].clone(),
                    theirs: self.theirs[&rel].clone(),
                    digest: self.digests.get(&rel).copied(),
                }),
                Action::Ask(rel) => {
                    asked.push(rel.clone());
                    scan.tell(Event::Asked(self.text.get(&rel).cloned()))
                }
                Action::Finish => return (scan.into_plan(), asked, reports),
                Action::Cancelled => panic!("nobody cancelled"),
            };
        }
    }
}

#[test]
fn every_kind_of_change_lands_in_the_right_bucket() {
    let mut f = Fixture::new();

    // untouched by you, changed by the pack
    f.old_file("config/a.cfg", b"v=1\n");
    f.new_file("config/a.cfg", b"v=2\n");
    // changed by you, untouched by the pack
    f.old_file("config/b.cfg", b"v=mine\n");
    f.new_file("config/b.cfg", b"v=orig\n");
    // both changed, different places -> merges
    f.old_file(
        "config/c.cfg",
        b"one=1\ntwo=2\nthree=3\nfour=4\nfive=MINE\n",
    );
    f.new_file(
        "config/c.cfg",
        b"one=PACK\ntwo=2\nthree=3\nfour=4\nfive=5\n",
    );
    // both changed, same line -> conflict
    f.old_file("config/d.cfg", b"x=mine\n");
    f.new_file("config/d.cfg", b"x=pack\n");
    // identical
    f.old_file("config/e.cfg", b"same\n");
    f.new_file("config/e.cfg", b"same\n");
    // binary the pack changed and you did not: digest alone decides
    f.old_file("config/tex.png", b"\x00\x01original");
    f.new_file("config/tex.png", b"\x00\x01updated");
    // yours only -> carried over
    f.old_file("saves/world/level.dat", b"\x00save");
    f.old_file("options.txt", b"fov:1\n");
    // mods
    f.old_file("mods/kept-1.0.jar", b"jar");
    f.old_file("mods/dropped-1.0.jar", b"jar");
    f.old_file("mods/mine-9.9.jar", b"jar");
    f.old_file("mods/ic2/settings.cfg", b"a=1\n");
    f.new_file("mods/kept-1.1.jar", b"jar");
    f.new_file("mods/brandnew-1.0.jar", b"jar");

    f.text = [
        ("config/a.cfg", b"v=1\n".to_vec()),
        ("config/b.cfg", b"v=orig\n".to_vec()),
        (
            "config/c.cfg",
            b"one=1\ntwo=2\nthree=3\nfour=4\nfive=5\n".to_vec(),
        ),
        ("config/d.cfg", b"x=orig\n".to_vec()),
        ("config/e.cfg", b"same\n".to_vec()),
    ]
    .into_iter()
    .map(|(k, v)| (k.to_string(), v))
    .collect();

    f.digests = f.text.iter().map(|(k, v)| (k.clone(), crc32(v))).collect();
    // The snapshot keeps no bytes for binaries, only their checksum.
    f.digests
        .insert("config/tex.png".into(), crc32(b"\x00\x01original"));

    f.shipped = [
        "config/a.cfg",
        "config/b.cfg",
        "config/c.cfg",
        "config/d.cfg",
        "config/e.cfg",
        "config/tex.png",
        "mods/kept-1.0.jar",
        "mods/dropped-1.0.jar",
    ]
    .into_iter()
    .map(|p| p.to_string())
    .collect();

    let (plan, asked, _) = f.run();

    assert_eq!(plan.identical, 1, "config/e.cfg");
    assert_eq!(
        plan.take_pack, 2,
        "config/a.cfg by content and config/tex.png by digest"
    );
    assert_eq!(plan.keep_yours, vec!["config/b.cfg".to_string()]);
    assert_eq!(plan.auto_merged.len(), 1);
    assert_eq!(plan.auto_merged[0].0, "config/c.cfg");
    assert_eq!(
        plan.auto_merged[0].1,
        "one=PACK\ntwo=2\nthree=3\nfour=4\nfive=MINE\n"
    );
    assert_eq!(plan.conflicts.len(), 1);
    assert_eq!(plan.conflicts[0].rel, "config/d.cfg");
    assert!(plan.binary_conflicts.is_empty());
    assert!(!plan.base_missing);

    // Non-jar files under mods/ are data, not mods, so they carry over.
    let carried: Vec<&str> = plan
        .carry
        .iter()
        .flat_map(|g| g.files.iter().map(|s| s.as_str()))
        .collect();
    assert!(carried.contains(&"saves/world/level.dat"));
    assert!(carried.contains(&"options.txt"));
    assert!(carried.contains(&"mods/ic2/settings.cfg"));

    // Loose files share one group instead of getting a row each.
    let loose = plan
        .carry
        .iter()
        .find(|g| g.name == LOOSE_FILES_GROUP)
        .expect("loose group");
    assert_eq!(loose.files, vec!["options.txt".to_string()]);

    assert_eq!(plan.mods.added, vec!["mods/brandnew-1.0.jar"]);
    assert_eq!(plan.mods.updated.len(), 1);
    let dropped = plan
        .mods
        .decisions
        .iter()
        .find(|d| d.file == "dropped-1.0.jar")
        .unwrap();
    assert!(!dropped.keep);
    let mine = plan
        .mods
        .decisions
        .iter()
        .find(|d| d.file == "mine-9.9.jar")
        .unwrap();
    assert!(mine.keep);

    // The checksum settles the others without the original.
    assert_eq!(asked, vec!["config/c.cfg".to_string(), "config/d.cfg".to_string()]);
}

#[test]
fn without_an_original_every_difference_is_a_choice() {
    let mut f = Fixture::new();
    f.old_file("a.cfg", b"x=1\n");
    f.new_file("a.cfg", b"x=2\n");
    f.old_file("b.dat", b"\x00one");
    f.new_file("b.dat", b"\x00other");
    let (plan, _, _) = f.run();
    assert!(plan.base_missing);
    assert_eq!(plan.conflicts.len(), 1);
    assert!(plan.conflicts[0].no_base);
    assert_eq!(plan.conflicts[0].merge.render(), "x=2\n");
    assert_eq!(plan.conflicts[0].merge.hunks[0].ours, "x=1\n");
    assert_eq!(plan.binary_conflicts.len(), 1);
    assert_eq!(plan.binary_conflicts[0].ours_size, 4);
    assert_eq!(plan.binary_conflicts[0].theirs_size, 6);
    assert!(plan.binary_conflicts[0].take_pack);
    assert_eq!(plan.unresolved(), 1);
}

#[test]
fn noise_is_left_behind() {
    let mut f = Fixture::new();
    for rel in [
        "logs/latest.log",
        "crash-reports/c.txt",
        ".gtnh-updater/state.json",
        ".fabric/x",
        "usercache.json",
        "usernamecache.json",
        "saves/w/level.dat",
    ] {
        f.old_file(rel, b"12345");
    }
    let (plan, _, _) = f.run();
    assert_eq!(plan.carry.len(), 1);
    assert_eq!(plan.carry[0].name, "saves");
    assert_eq!(plan.carry_bytes(), 5);
}

#[test]
fn bigger_groups_come_first_and_equal_ones_by_name() {
    let mut f = Fixture::new();
    f.old_file("b/1", b"12");
    f.old_file("a/1", b"1");
    f.old_file("a/2", b"1");
    f.old_file("c/1", b"123");
    let (mut plan, _, _) = f.run();
    let names: Vec<&str> = plan.carry.iter().map(|g| g.name.as_str()).collect();
    assert_eq!(names, vec!["c", "a", "b"]);
    assert_eq!(plan.carry[1].files, vec!["a/1".to_string(), "a/2".to_string()]);
    plan.carry[0].enabled = false;
    assert_eq!(plan.carry_bytes(), 4);
}

#[test]
fn the_scan_reports_and_settles_every_file() {
    let mut f = Fixture::new();
    for i in 0..300 {
        let rel = format!("config/{i:04}.cfg");
        f.old_file(&rel, b"a\n");
        f.new_file(&rel, if i % 2 == 0 { b"a\n" } else { b"b\n" });
        if i % 2 == 1 {
            f.text.insert(rel, b"a\n".to_vec());
        }
    }
    f.old_file("mods/x-1.jar", b"j");
    f.new_file("mods/x-1.jar", b"k");
    let (plan, asked, reports) = f.run();
    assert_eq!(plan.identical, 150);
    assert_eq!(plan.take_pack, 150);
    assert_eq!(asked.len(), 150);
    assert_eq!(reports, 4);
}

/// Reports come at every 128th file and once more at the end; a refusal stops the
/// scan there and then, except at the end, where the answer is ignored.
#[test]
fn reports_say_how_far_it_is_and_a_refusal_stops() {
    let mut f = Fixture::new();
    for i in 0..130 {
        f.old_file(&format!("config/{i:04}.cfg"), b"a");
        f.new_file(&format!("config/{i:04}.cfg"), b"a");
    }
    let (ours, theirs) = (index(&f.ours), index(&f.theirs));
    let base = index_tree(Vec::new());
    for refuse_at in [0usize, 128, 130] {
        let mut scan = build(BuildInput { ours: &ours, theirs: &theirs }, &base);
        let mut seen = Vec::new();
        let finished = loop {
            scan = match scan.action() {
                Action::Report { done, total, label } => {
                    seen.push((done, total, label));
                    scan.tell(Event::Reported(done != refuse_at))
                }
                Action::Look(rel) => scan.tell(Event::Looked {
                    ours: f.ours[&rel].clone(),
                    theirs: f.theirs[&rel].clone(),
                    digest: None,
                }),
                Action::Ask(_) => panic!("identical files need no original"),
                Action::Finish => break true,
                Action::Cancelled => break false,
            };
        };
        let all = vec![
            (0, 130, "config/0000.cfg".to_string()),
            (128, 130, "config/0128.cfg".to_string()),
            (130, 130, "done".to_string()),
        ];
        assert_eq!(finished, refuse_at == 130);
        assert_eq!(seen, all[..seen.len()].to_vec());
        assert_eq!(seen.last().unwrap().0, refuse_at);
    }
}

#[test]
fn an_empty_scan_still_reports_its_end() {
    let none = index_tree(Vec::new());
    let scan = build(BuildInput { ours: &none, theirs: &none }, &none);
    assert!(matches!(
        scan.action(),
        Action::Report { done: 0, total: 0, label } if label == "done"
    ));
}

/// All the bytes that are carried over count, and a group takes off its own.
#[test]
fn each_group_counts_its_own_bytes() {
    let mut f = Fixture::new();
    f.old_file("saves/a", b"12345");
    f.old_file("options.txt", b"12");
    f.old_file("shaderpacks/s", b"1");
    f.old_file("logs/latest.log", b"123456789");
    let (mut plan, _, _) = f.run();
    assert_eq!(plan.carry_bytes(), 8);
    plan.carry[1].enabled = false;
    assert_eq!(plan.carry_bytes(), 6);
    for g in plan.carry.iter_mut() {
        g.enabled = false;
    }
    assert_eq!(plan.carry_bytes(), 0);
}

#[test]
fn each_review_leaves_one_less() {
    let mut f = Fixture::new();
    for name in ["a", "b", "c"] {
        f.old_file(&format!("config/{name}"), b"x\n");
        f.new_file(&format!("config/{name}"), b"y\n");
    }
    f.old_file("config/bin", b"\x00x");
    f.new_file("config/bin", b"\x00y");
    let (mut plan, _, _) = f.run();
    assert_eq!(plan.conflicts.len(), 3);
    assert_eq!(plan.unresolved(), 3);
    plan.conflicts[1].reviewed = true;
    assert_eq!(plan.unresolved(), 2);
    plan.conflicts[0].reviewed = true;
    plan.conflicts[2].reviewed = true;
    assert_eq!(plan.unresolved(), 0);
    assert_eq!(plan.binary_conflicts.len(), 1);
}

/// The same trees with `config` called `serverutilities` give the same plan.
#[test]
fn renaming_the_config_folder_renames_the_plan() {
    let plan_of = |dir: &str| {
        let mut f = Fixture::new();
        let at = |name: &str| format!("{dir}/{name}");
        f.old_file(&at("same"), b"s");
        f.new_file(&at("same"), b"s");
        f.old_file(&at("merged"), b"1\n2\n3\n4\nx\n");
        f.new_file(&at("merged"), b"y\n2\n3\n4\n5\n");
        f.text.insert(at("merged"), b"1\n2\n3\n4\n5\n".to_vec());
        f.old_file(&at("clash"), b"x\n");
        f.new_file(&at("clash"), b"y\n");
        f.old_file(&at("mine"), b"only");
        f.old_file("mods/m-1.jar", b"j");
        f.new_file("mods/m-2.jar", b"j");
        f.old_file("saves/w", b"12");
        f.run().0
    };
    let p = plan_of("config");
    let q = plan_of("serverutilities");
    assert_eq!(p.identical, q.identical);
    assert_eq!(p.auto_merged[0].1, q.auto_merged[0].1);
    assert_eq!(q.auto_merged[0].0, "serverutilities/merged");
    assert_eq!(q.conflicts[0].rel, "serverutilities/clash");
    assert_eq!(p.conflicts[0].merge.render(), q.conflicts[0].merge.render());
    assert_eq!(q.carry[0].name, "serverutilities");
    assert_eq!(q.carry[0].files, vec!["serverutilities/mine"]);
    assert_eq!(p.carry[0].bytes, q.carry[0].bytes);
    assert_eq!(format!("{:?}", p.mods), format!("{:?}", q.mods));
}

#[test]
fn a_checksum_settles_what_it_can() {
    let crc = crc32(b"orig");
    assert_eq!(crc32(b"123456789"), 0xCBF4_3926);
    let ours = b"orig".to_vec();
    let theirs = b"new".to_vec();
    assert!(matches!(settle(&ours, &ours, None), Some(Verdict::Identical)));
    assert!(matches!(settle(&ours, &theirs, Some(crc)), Some(Verdict::TakePack)));
    assert!(matches!(settle(&theirs, &ours, Some(crc)), Some(Verdict::KeepYours)));
    assert!(settle(&ours, &theirs, Some(crc ^ 1)).is_none());
    assert!(settle(&ours, &theirs, None).is_none());
}

#[test]
fn who_changed_it_decides() {
    let orig = b"v=1\n".to_vec();
    let mine = b"v=2\n".to_vec();
    let pack = b"v=3\n".to_vec();
    let binary = b"\x00\x01".to_vec();
    assert!(matches!(settle_by_original(&orig, &pack, Some(&orig)), Verdict::TakePack));
    assert!(matches!(settle_by_original(&mine, &orig, Some(&orig)), Verdict::KeepYours));
    assert!(matches!(
        settle_by_original(&mine, &pack, Some(&orig)),
        Verdict::Conflict { no_base: false, .. }
    ));
    assert!(matches!(
        settle_by_original(&mine, &pack, Some(&binary)),
        Verdict::Binary { ours_size: 4, theirs_size: 4 }
    ));
    assert!(matches!(
        settle_by_original(&mine, &binary, None),
        Verdict::Binary { ours_size: 4, theirs_size: 2 }
    ));
}

#[test]
fn jars_are_mods_and_their_settings_are_not() {
    assert!(is_mod_file("mods/a.jar"));
    assert!(is_mod_file("mods/1.7.10/a.litemod"));
    assert!(is_mod_file("mods/a.jar.disabled"));
    assert!(!is_mod_file("mods/a.cfg"));
    assert!(!is_mod_file("config/a.jar"));
}

#[test]
fn an_index_normalises_and_keeps_the_last() {
    let tree = index_tree(vec![("./a\\b".into(), 1), ("a/b".into(), 2), ("Z".into(), 3)]);
    assert_eq!(tree.len(), 2);
    assert_eq!(tree.get("a/b"), Some(&2));
    assert!(tree.contains_key("Z"));
    assert!(!tree.contains_key("z"));
    assert_eq!(tree.entries[0].0, "Z");
}

#[test]
fn groups_can_be_left_out_of_the_count() {
    let mut plan = Plan::default();
    for (bytes, enabled) in [(5, true), (7, false), (11, true)] {
        plan.carry.push(CarryGroup { name: "g".into(), files: vec![], bytes, enabled });
    }
    assert_eq!(plan.carry_bytes(), 16);
    assert_eq!(plan.unresolved(), 0);
}

#[test]
fn serverutilities_is_treated_like_config() {
    let mut f = Fixture::new();
    for dir in ["config", "serverutilities"] {
        for (name, ours, theirs, original) in [
            ("a.cfg", "1\n", "2\n", "1\n"),
            ("b.cfg", "mine\n", "orig\n", "orig\n"),
            ("c.cfg", "mine\n", "pack\n", "orig\n"),
        ] {
            let rel = format!("{dir}/{name}");
            f.old_file(&rel, ours.as_bytes());
            f.new_file(&rel, theirs.as_bytes());
            f.text.insert(rel.clone(), original.as_bytes().to_vec());
            f.shipped.push(rel);
        }
        f.old_file(&format!("{dir}/mine.cfg"), b"x");
    }
    let (plan, _, _) = f.run();
    assert_eq!(plan.take_pack, 2);
    assert_eq!(plan.keep_yours, vec!["config/b.cfg", "serverutilities/b.cfg"]);
    let rels: Vec<&str> = plan.conflicts.iter().map(|c| c.rel.as_str()).collect();
    assert_eq!(rels, vec!["config/c.cfg", "serverutilities/c.cfg"]);
    let names: Vec<&str> = plan.carry.iter().map(|g| g.name.as_str()).collect();
    assert_eq!(names, vec!["config", "serverutilities"]);
}
