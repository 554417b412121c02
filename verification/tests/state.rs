use gtnh_updater::github::DailyArtifact;
use gtnh_updater::state::{
    base_zip, civil_from_days, detect_build_from_changelogs, installed_build, now_iso, state_dir,
    state_path, InstanceState,
};

#[test]
fn the_highest_changelog_tells_the_build() {
    let names: Vec<String> = [
        "changelog from daily 600 to 641.md",
        "changelog from daily 641 to 640.md",
        "changelog from daily 1 to 9999999999.md",
        "changelog from daily x.md",
        "changelog from daily 1 to 700.txt",
        "options.txt",
    ]
    .iter()
    .map(|s| s.to_string())
    .collect();
    assert_eq!(detect_build_from_changelogs(&names), Some(641));
    assert_eq!(detect_build_from_changelogs(&Vec::new()), None);
}

#[test]
fn state_is_kept_in_the_instance() {
    assert_eq!(state_dir("/i/a"), "/i/a/.gtnh-updater");
    assert_eq!(base_zip("/i/a"), "/i/a/.gtnh-updater/base.zip");
    assert_eq!(state_path("/i/a"), "/i/a/.gtnh-updater/state.json");
}

#[test]
fn stamps_are_civil_dates() {
    assert_eq!(now_iso(0), "1970-01-01T00:00:00Z");
    assert_eq!(now_iso(951_827_696), "2000-02-29T12:34:56Z");
    assert_eq!(now_iso(1_786_924_799), "2026-08-16T23:59:59Z");
    assert_eq!(civil_from_days(-1), (1969, 12, 31));
    assert_eq!(civil_from_days(-719_468), (0, 3, 1));
    assert_eq!(civil_from_days(-719_469), (0, 2, 29));
}

#[test]
fn every_day_follows_the_one_before() {
    let mut last = civil_from_days(-800_000);
    for z in -799_999..800_000 {
        let day = civil_from_days(z);
        let next = day == (last.0, last.1, last.2 + 1)
            || day == (last.0, last.1 + 1, 1)
            || day == (last.0 + 1, 1, 1);
        assert!(next, "{last:?} {day:?}");
        last = day;
    }
}

#[test]
fn the_state_says_which_build_it_is() {
    let a = DailyArtifact::parse(5, 1, "GTNH-daily-2026-08-19+690-mmcprism-java8.zip", 1).unwrap();
    let s = InstanceState::updated(&a, "now".into(), Some("old".into()));
    assert_eq!(s.build, Some(690));
    assert_eq!(s.date.as_deref(), Some("2026-08-19"));
    assert_eq!(s.variant.as_deref(), Some("mmcprism-java8"));
    assert_eq!(s.artifact_id, Some(5));
    assert_eq!(s.updated_at.as_deref(), Some("now"));
    assert_eq!(s.updated_from.as_deref(), Some("old"));
    assert_eq!(installed_build(&s, Some(1)), Some(690));
    assert_eq!(installed_build(&InstanceState::default(), Some(1)), Some(1));
    assert_eq!(installed_build(&InstanceState::default(), None), None);
}
