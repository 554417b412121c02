use gtnh_updater::github::DailyArtifact;
use gtnh_updater::plan::Plan;
use gtnh_updater::prism::Instance;
use gtnh_updater::state::InstanceState;
use gtnh_updater::worker::{
    count_message, download_message, expected_length, nothing_found_message, staging_dir, ApplyJob,
    BaseKind, Phase, Preparation, PrepareJob, Progressed, RemoteBaseOutcome, Task,
};

fn job() -> PrepareJob {
    PrepareJob {
        token: None,
        instance: Instance { dir: "/i/old".into(), name: "old".into() },
        instances_root: "/i".into(),
        artifact: DailyArtifact::parse(5, 1, "GTNH-daily-d+690-mmcprism-java8.zip", 70).unwrap(),
        final_name: "new".into(),
        display_name: "New".into(),
    }
}

/// Run a preparation to the end; gives the tasks and the note on the originals.
fn through(
    cached: Option<u64>,
    has_snapshot: bool,
    build: Option<u32>,
    remote: fn() -> RemoteBaseOutcome,
) -> (Vec<String>, String, Option<u32>) {
    let mut p = Preparation::new(job(), "/c".into());
    let mut seen = Vec::new();
    loop {
        p = match p.task() {
            Task::Clear(dir) => {
                seen.push(format!("clear {dir}"));
                p.tell(Progressed::Cleared)
            }
            Task::Measure(zip) => {
                seen.push(format!("measure {zip}"));
                p.tell(Progressed::Measured(cached))
            }
            Task::Download { artifact_id, size, .. } => {
                seen.push(format!("download {artifact_id} {size}"));
                p.tell(Progressed::Downloaded)
            }
            Task::Extract { staging, .. } => {
                seen.push(format!("extract {staging}"));
                p.tell(Progressed::Extracted)
            }
            Task::Save { minecraft, dest } => {
                seen.push(format!("save {minecraft} {dest}"));
                p.tell(Progressed::Saved)
            }
            Task::Inspect { instance } => {
                seen.push(format!("inspect {instance}"));
                p.tell(Progressed::Inspected { has_snapshot, build })
            }
            Task::OpenSnapshot(path) => {
                seen.push(format!("snapshot {path}"));
                p.tell(Progressed::SnapshotOpened)
            }
            Task::OpenRemote { build, variant } => {
                seen.push(format!("remote {build} {variant}"));
                p.tell(Progressed::Remote(remote()))
            }
            Task::Compare { ours, theirs, base } => {
                seen.push(format!("compare {ours} {theirs} {base:?}"));
                // Something it does not wait for changes nothing.
                p.tell(Progressed::Cleared)
                    .tell(Progressed::Compared(Plan::default()))
            }
            Task::Finish => {
                let done = p.finish().unwrap();
                assert_eq!(done.staging, "/i/new.part");
                assert_eq!(
                    done.download_path.as_deref(),
                    Some("/c/GTNH-daily-d+690-mmcprism-java8.zip")
                );
                return (seen, done.base_note, done.old_build);
            }
        };
    }
}

#[test]
fn a_snapshot_is_preferred() {
    let (seen, note, build) = through(Some(70), true, Some(641), || RemoteBaseOutcome::Gone);
    assert_eq!(
        seen,
        vec![
            "clear /i/new.part",
            "measure /c/GTNH-daily-d+690-mmcprism-java8.zip",
            "extract /i/new.part",
            "save /i/new.part/.minecraft /i/new.part/.gtnh-updater/base.zip",
            "inspect /i/old",
            "snapshot /i/old/.gtnh-updater/base.zip",
            "compare /i/old/.minecraft /i/new.part/.minecraft Snapshot",
        ]
    );
    assert_eq!(note, "Merge base: snapshot saved by a previous update.");
    assert_eq!(build, Some(641));
}

#[test]
fn without_a_snapshot_the_old_build_is_read() {
    let (seen, note, _) = through(Some(69), false, Some(641), || RemoteBaseOutcome::Found);
    assert_eq!(seen[2], "download 5 70");
    assert_eq!(seen[6], "remote 641 mmcprism-java8");
    assert_eq!(seen[7], "compare /i/old/.minecraft /i/new.part/.minecraft Remote");
    assert_eq!(
        note,
        "Merge base: daily 641 artifact, read on demand over the network."
    );
}

#[test]
fn without_an_original_the_note_says_why() {
    let (seen, note, _) = through(None, false, Some(641), || RemoteBaseOutcome::Gone);
    assert!(seen.last().unwrap().ends_with("Nothing"));
    assert_eq!(
        note,
        "No artifact for daily 641 is still on GitHub, so every changed file needs a manual choice."
    );
    let (_, note, _) =
        through(None, false, Some(641), || RemoteBaseOutcome::Failed("timed out".into()));
    assert_eq!(note, "Could not read the daily 641 artifact (timed out).");
    let (_, note, build) = through(None, false, None, || RemoteBaseOutcome::Found);
    assert_eq!(
        note,
        "Could not tell which daily build this instance is on, so every changed file needs a manual choice."
    );
    assert_eq!(build, None);
}

#[test]
fn nothing_is_prepared_before_the_end() {
    let p = Preparation::new(job(), "/c".into());
    assert!(p.finish().is_none());
    let p = Preparation::new(job(), "/c".into()).tell(Progressed::Compared(Plan::default()));
    assert!(matches!(p.task(), Task::Clear(_)));
    assert_ne!(BaseKind::Nothing, BaseKind::Remote);
}

#[test]
fn phases_and_messages() {
    assert_eq!(Phase::Query.label(), "Checking for builds");
    assert_eq!(Phase::Download.label(), "Downloading pack");
    assert_eq!(Phase::Extract.label(), "Extracting");
    assert_eq!(Phase::Snapshot.label(), "Saving merge base");
    assert_eq!(Phase::Scan.label(), "Comparing files");
    assert_eq!(Phase::Apply.label(), "Writing new instance");
    assert_eq!(download_message(1024, 2048), "1.0 KB of 2.0 KB");
    assert_eq!(count_message(3, 10), "3 / 10");
    assert_eq!(expected_length(5, 9), 5);
    assert_eq!(expected_length(0, 9), 9);
    assert_eq!(
        nothing_found_message("v"),
        "No non-expired `v` artifacts were found. GitHub keeps daily artifacts for a limited time."
    );
    assert_eq!(staging_dir("/i", "n"), "/i/n.part");
}

#[test]
fn a_download_is_deleted_unless_kept() {
    let mut job = ApplyJob {
        plan: Plan::default(),
        prepared_staging: "/i/n.part".into(),
        old_instance: "/i/old".into(),
        instances_root: "/i".into(),
        final_name: "n".into(),
        display_name: "n".into(),
        state: InstanceState::default(),
        download_path: Some("/c/z".into()),
        keep_download: false,
    };
    assert_eq!(job.leftover().map(|s| s.as_str()), Some("/c/z"));
    job.keep_download = true;
    assert_eq!(job.leftover(), None);
}
