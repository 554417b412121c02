use gtnh_updater::mods::{mod_key, plan, split_disabled, ModKind};
use gtnh_updater::textmap::TextMap;

fn set(items: &[&str]) -> TextMap<u64> {
    let mut out = TextMap::new();
    for s in items {
        out.insert(s.to_string(), 1u64);
    }
    out
}

#[test]
fn versions_normalise_to_a_stable_key() {
    assert_eq!(mod_key("angelica-2.1.56.jar"), "angelica");
    assert_eq!(mod_key("angelica-2.2.0.jar"), "angelica");
    assert_eq!(mod_key("AmunRa-GC-0.8.13.jar"), "amunra-gc");
    assert_eq!(
        mod_key("appliedenergistics2-rv3-beta-1019-GTNH.jar"),
        mod_key("appliedenergistics2-rv3-beta-1034-GTNH.jar")
    );
}

#[test]
fn distinguishes_pack_removals_from_user_extras() {
    let base = set(&["mods/dropped-1.0.jar", "mods/kept-1.0.jar"]);
    let ours = set(&[
        "mods/dropped-1.0.jar",
        "mods/kept-1.0.jar",
        "mods/mine-3.0.jar",
    ]);
    let theirs = set(&["mods/kept-1.1.jar", "mods/brandnew-1.0.jar"]);
    let p = plan(&base, &ours, &theirs);

    assert_eq!(p.added, vec!["mods/brandnew-1.0.jar"]);
    assert_eq!(
        p.updated,
        vec![("kept-1.0.jar".into(), "kept-1.1.jar".into())]
    );
    assert_eq!(p.removed_count(), 1);
    assert_eq!(p.extra_count(), 1);

    let dropped = p
        .decisions
        .iter()
        .find(|d| d.file == "dropped-1.0.jar")
        .unwrap();
    assert_eq!(dropped.kind, ModKind::RemovedByPack);
    assert!(!dropped.keep, "pack removals default to being dropped");

    let mine = p
        .decisions
        .iter()
        .find(|d| d.file == "mine-3.0.jar")
        .unwrap();
    assert_eq!(mine.kind, ModKind::UserAdded);
    assert!(mine.keep, "your own mods default to being kept");
}

/// Prism disables a mod by renaming it, so a mod you turned off must come
/// back off even though the new pack ships it enabled and at a new version.
#[test]
fn disabled_mods_stay_disabled_across_an_update() {
    let base = set(&["mods/journeymap-5.2.20-fairplay.jar"]);
    let ours = set(&["mods/journeymap-5.2.20-fairplay.jar.disabled"]);
    let theirs = set(&["mods/journeymap-5.2.21-fairplay.jar"]);
    let p = plan(&base, &ours, &theirs);

    assert!(p.decisions.is_empty(), "turning a mod off is not a removal");
    assert_eq!(
        p.updated,
        vec![(
            "journeymap-5.2.20-fairplay.jar".to_string(),
            "journeymap-5.2.21-fairplay.jar".to_string()
        )],
        "the update should be reported without the .disabled suffix"
    );
    assert_eq!(p.state_changes.len(), 1);
    assert_eq!(
        p.state_changes[0].rel,
        "mods/journeymap-5.2.21-fairplay.jar"
    );
    assert!(!p.state_changes[0].enable);
    assert_eq!(p.disabled_count(), 1);
}

#[test]
fn a_mod_you_turned_back_on_stays_on() {
    let base = set(&["mods/optional-1.0.jar.disabled"]);
    let ours = set(&["mods/optional-1.0.jar"]);
    let theirs = set(&["mods/optional-1.0.jar.disabled"]);
    let p = plan(&base, &ours, &theirs);
    assert_eq!(p.unchanged, 1, "same version, only the state differs");
    assert_eq!(p.state_changes.len(), 1);
    assert!(p.state_changes[0].enable);
    assert_eq!(p.reenabled_count(), 1);
}

#[test]
fn matching_states_need_no_change() {
    let base = set(&["mods/a-1.0.jar", "mods/b-1.0.jar.disabled"]);
    let ours = set(&["mods/a-1.0.jar", "mods/b-1.0.jar.disabled"]);
    let theirs = set(&["mods/a-1.1.jar", "mods/b-1.1.jar.disabled"]);
    let p = plan(&base, &ours, &theirs);
    assert!(p.state_changes.is_empty());
}

/// A mod you added yourself keeps its filename, and therefore its state.
#[test]
fn your_own_disabled_mod_is_carried_as_disabled() {
    let ours = set(&["mods/mine-1.0.jar.disabled"]);
    let p = plan(&TextMap::new(), &ours, &TextMap::new());
    assert_eq!(p.decisions.len(), 1);
    assert!(p.decisions[0].keep);
    assert_eq!(p.decisions[0].rel, "mods/mine-1.0.jar.disabled");
}

#[test]
fn without_a_base_everything_reads_as_user_added() {
    let ours = set(&["mods/whatever-1.0.jar"]);
    let theirs = set(&["mods/other-1.0.jar"]);
    let p = plan(&TextMap::new(), &ours, &theirs);
    assert_eq!(p.extra_count(), 1);
    assert!(p.decisions[0].keep);
}

#[test]
fn the_suffix_tells_whether_a_mod_is_on() {
    assert_eq!(split_disabled("a-1.0.jar"), ("a-1.0.jar", true));
    assert_eq!(split_disabled("a-1.0.jar.disabled"), ("a-1.0.jar", false));
    assert_eq!(split_disabled(".disabled"), ("", false));
}

#[test]
fn keys_leave_out_extension_and_case() {
    assert_eq!(mod_key("Foo.litemod"), "foo");
    assert_eq!(mod_key("Foo-v2.jar.disabled"), "foo");
    assert_eq!(mod_key("1.7.10-thing.jar"), "1.7.10-thing");
    assert_eq!(mod_key("ÄÖ-1.0.jar"), "äö");
}

#[test]
fn every_pack_mod_is_added_updated_or_unchanged() {
    let ours = set(&["mods/a-1.0.jar", "mods/b-1.0.jar"]);
    let theirs = set(&["mods/a-1.0.jar", "mods/b-2.0.jar", "mods/c-1.0.jar"]);
    let p = plan(&TextMap::new(), &ours, &theirs);
    assert_eq!(p.unchanged, 1);
    assert_eq!(p.updated, vec![("b-1.0.jar".to_string(), "b-2.0.jar".to_string())]);
    assert_eq!(p.added, vec!["mods/c-1.0.jar".to_string()]);
}

#[test]
fn removals_are_listed_before_your_own_and_by_name() {
    let base = set(&["mods/Zed-1.0.jar"]);
    let ours = set(&["mods/beta-1.0.jar", "mods/Alpha-1.0.jar", "mods/Zed-1.0.jar"]);
    let p = plan(&base, &ours, &TextMap::new());
    let files: Vec<&str> = p.decisions.iter().map(|d| d.file.as_str()).collect();
    assert_eq!(files, vec!["Zed-1.0.jar", "Alpha-1.0.jar", "beta-1.0.jar"]);
}

/// The key depends neither on the version, nor on what follows it, nor on the state.
#[test]
fn the_key_ignores_version_and_state() {
    for version in ["1", "v2.0", "3_1", "10.20.30"] {
        for tail in ["", "-GTNH", "-beta-7"] {
            for ending in [".jar", ".litemod"] {
                let file = format!("Some-Mod-{version}{tail}{ending}");
                assert_eq!(mod_key(&file), "some-mod");
                assert_eq!(mod_key(&format!("{file}.disabled")), "some-mod");
            }
        }
    }
}
