use gtnh_updater::pack::Pack;
use gtnh_updater::plan::crc32;
use gtnh_updater::snapshot::{
    in_snapshot, write_base_snapshot, write_manifest, BaseSource, Listed, NoBase, RemoteBase,
    SaveAction, SaveEvent, SnapshotBase, MANIFEST,
};
use std::io::{Cursor, Read, Write};

fn crc(bytes: &[u8]) -> u32 {
    crc32fast::hash(bytes)
}

fn entry(zip: &mut zip::ZipArchive<Cursor<Vec<u8>>>, name: &str) -> Option<Vec<u8>> {
    let mut entry = zip.by_name(name).ok()?;
    let mut out = Vec::new();
    entry.read_to_end(&mut out).ok()?;
    Some(out)
}

fn listed(files: &[(&str, &[u8])]) -> Vec<Listed> {
    files
        .iter()
        .map(|(rel, body)| Listed {
            rel: rel.to_string(),
            size: body.len() as u64,
            crc: crc32(body),
        })
        .collect()
}

/// A snapshot as a zip in memory.
fn snapshot_of(files: &[(&str, &[u8])]) -> zip::ZipArchive<Cursor<Vec<u8>>> {
    let opts = zip::write::SimpleFileOptions::default();
    let mut zw = Some(zip::ZipWriter::new(Cursor::new(Vec::new())));
    let mut done = None;
    let mut saving = write_base_snapshot(listed(files));
    loop {
        let event = match saving.action() {
            SaveAction::Manifest(text) => {
                let zw = zw.as_mut().unwrap();
                zw.start_file(MANIFEST, opts).unwrap();
                zw.write_all(text.as_bytes()).unwrap();
                SaveEvent::Written
            }
            SaveAction::Report { .. } => SaveEvent::Reported(true),
            SaveAction::Read(rel) => SaveEvent::Read(
                files.iter().find(|(r, _)| *r == rel).map(|(_, body)| body.to_vec()),
            ),
            SaveAction::Store { entry, bytes } => {
                let zw = zw.as_mut().unwrap();
                zw.start_file(entry, opts).unwrap();
                zw.write_all(bytes).unwrap();
                SaveEvent::Written
            }
            SaveAction::Seal => {
                done = Some(zw.take().unwrap().finish().unwrap());
                SaveEvent::Written
            }
            SaveAction::Finish => return zip::ZipArchive::new(done.unwrap()).unwrap(),
            SaveAction::Cancelled => panic!("nobody cancelled"),
        };
        saving = saving.tell(event);
    }
}

/// Reports come at every 256th file and once more at the end; a refusal stops
/// saving, except at the end.
#[test]
fn saving_reports_and_can_be_cancelled() {
    let names: Vec<String> = (0..300).map(|i| format!("c/{i:03}")).collect();
    let files: Vec<(&str, &[u8])> = names.iter().map(|n| (n.as_str(), &b"x"[..])).collect();
    for refuse_at in [0usize, 256, 300] {
        let mut saving = write_base_snapshot(listed(&files));
        let mut reports = Vec::new();
        let mut stored = Vec::new();
        let mut sealed = false;
        let finished = loop {
            let event = match saving.action() {
                SaveAction::Manifest(_) => SaveEvent::Written,
                SaveAction::Report { done, total } => {
                    reports.push((done, total));
                    SaveEvent::Reported(done != refuse_at)
                }
                SaveAction::Read(rel) => SaveEvent::Read(if rel == "c/007" {
                    None
                } else if rel == "c/008" {
                    Some(vec![0])
                } else {
                    Some(b"x".to_vec())
                }),
                SaveAction::Store { entry, bytes } => {
                    assert_eq!(bytes, b"x");
                    stored.push(entry);
                    SaveEvent::Written
                }
                SaveAction::Seal => {
                    sealed = true;
                    SaveEvent::Written
                }
                SaveAction::Finish => break true,
                SaveAction::Cancelled => break false,
            };
            saving = saving.tell(event);
        };
        let all = vec![(0, 300), (256, 300), (300, 300)];
        assert_eq!(finished, refuse_at == 300);
        assert_eq!(sealed, refuse_at == 300);
        assert_eq!(reports, all[..reports.len()].to_vec());
        assert_eq!(reports.last().unwrap().0, refuse_at);
        assert_eq!(stored.len(), [0, 254, 298][reports.len() - 1]);
        if finished {
            assert_eq!(stored[7], "files/c/009");
        }
    }
}

#[test]
fn snapshot_roundtrips_text_and_digests() {
    let mut zip = snapshot_of(&[
        ("config/a.cfg", b"hello\n"),
        ("config/tex.png", b"\x00\x01binary"),
        ("mods/big-1.0.jar", b"jar bytes"),
    ]);
    let manifest = String::from_utf8(entry(&mut zip, MANIFEST).unwrap()).unwrap();
    let base = SnapshotBase::open(Some(&manifest));
    assert_eq!(entry(&mut zip, &base.entry("config/a.cfg")).unwrap(), b"hello\n");
    // Binaries are digest-only, jars are not stored at all.
    assert!(entry(&mut zip, &base.entry("config/tex.png")).is_none());
    assert_eq!(base.digest("config/tex.png"), Some(crc(b"\x00\x01binary")));
    // …but every path stays in the manifest so the mod diff still works.
    assert!(base.paths().contains_key("mods/big-1.0.jar"));
}

#[test]
fn a_manifest_reads_back_as_it_was_written() {
    let files = vec![
        Listed { rel: "a b/c\td.cfg".into(), size: 12, crc: 4294967295 },
        Listed { rel: "z".into(), size: 18446744073709551615, crc: 0 },
    ];
    let text = write_manifest(&files);
    assert_eq!(text, "a b/c\td.cfg\t12\t4294967295\nz\t18446744073709551615\t0\n");
    let base = SnapshotBase::open(Some(&text));
    assert_eq!(base.paths.get("a b/c\td.cfg"), Some(&12));
    assert_eq!(base.paths.get("z"), Some(&18446744073709551615));
    assert_eq!(base.digest("a b/c\td.cfg"), Some(4294967295));
    assert_eq!(base.digest("z"), Some(0));
    assert_eq!(base.digest("y"), None);
}

#[test]
fn odd_manifest_lines_say_what_they_can() {
    let base = SnapshotBase::open(Some("no tabs\none\ttab\na\tx\t7\nb\t5\t4294967296\na\t9\t?\n"));
    assert_eq!(base.paths.len(), 2);
    assert_eq!(base.paths.get("a"), Some(&9));
    assert_eq!(base.digest("a"), Some(7));
    assert_eq!(base.paths.get("b"), Some(&5));
    assert_eq!(base.digest("b"), None);
    assert_eq!(SnapshotBase::open(None).paths.len(), 0);
}

#[test]
fn a_snapshot_leaves_out_jars_and_giants() {
    assert!(in_snapshot("config/a.cfg", 33_554_432));
    assert!(!in_snapshot("config/a.cfg", 33_554_433));
    assert!(!in_snapshot("mods/a.jar", 1));
    assert!(in_snapshot("mods/a.cfg", 1));
}

#[test]
fn a_remote_pack_lists_what_lies_below_minecraft() {
    let names = vec![
        Some("Pack/.minecraft/config/a.cfg".to_string()),
        Some("Pack/instance.cfg".to_string()),
    ];
    let base = RemoteBase::new(Pack::open(&names).unwrap());
    assert_eq!(base.paths().len(), 1);
    assert!(base.paths().contains_key("config/a.cfg"));
    assert_eq!(base.digest("config/a.cfg"), None);
    assert_eq!(base.pack.read(&base.entry("config/a.cfg")), Ok(0));
}

#[test]
fn no_base_knows_nothing() {
    let base = NoBase::default();
    assert_eq!(base.paths().len(), 0);
    assert_eq!(base.digest("a"), None);
}
