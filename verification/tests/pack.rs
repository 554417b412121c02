use gtnh_updater::pack::{
    detect_root, safe_join, ExtractAction, ExtractEvent, Pack, PackError,
};

fn names(list: &[&str]) -> Vec<Option<String>> {
    list.iter().map(|n| Some(n.to_string())).collect()
}

#[test]
fn the_folder_around_a_pack_is_taken_off() {
    let mut list = names(&[
        "GT New Horizons daily/",
        "GT New Horizons daily/.minecraft/",
        "GT New Horizons daily/.minecraft/config/a.cfg",
        "GT New Horizons daily\\instance.cfg",
    ]);
    list.push(None);
    let pack = Pack::open(&list).unwrap();
    assert_eq!(pack.paths(), vec![".minecraft/config/a.cfg", "instance.cfg"]);
    assert_eq!(pack.read("instance.cfg"), Ok(3));
    assert_eq!(pack.read("nothing"), Err(PackError::Missing));
}

#[test]
fn a_pack_without_a_folder_stays_as_it_is() {
    let pack = Pack::open(&names(&["a/b", "c"])).unwrap();
    assert_eq!(pack.paths(), vec!["a/b", "c"]);
    let two = Pack::open(&names(&["a/b", "c/d"])).unwrap();
    assert_eq!(two.paths(), vec!["a/b", "c/d"]);
}

#[test]
fn roots_are_detected() {
    let list = |v: &[&str]| v.iter().map(|s| s.to_string()).collect::<Vec<String>>();
    assert_eq!(detect_root(&list(&["x/a", "x/b/c"])), Some("x/".to_string()));
    assert_eq!(detect_root(&list(&["x/a", "y/b"])), None);
    assert_eq!(detect_root(&list(&["x/a", "b"])), None);
    assert_eq!(detect_root(&list(&[])), None);
}

#[test]
fn a_pack_of_folders_is_empty() {
    assert_eq!(Pack::open(&names(&["a/", "a/b/"])).err(), Some(PackError::NoFiles));
    assert_eq!(Pack::open(&Vec::new()).err(), Some(PackError::NoFiles));
    assert_eq!(PackError::NoFiles.message(""), "pack zip contained no files");
    assert_eq!(PackError::Missing.message("x"), "x is not in the pack");
}

#[test]
fn extracted_files_stay_below_the_target() {
    assert_eq!(safe_join("/t", "a//b/./c").unwrap(), "/t/a/b/c");
    assert_eq!(safe_join("/t/", "/etc/x").unwrap(), "/t/etc/x");
    assert_eq!(safe_join("/t", "a/../../x"), Err(PackError::Escapes));
    assert_eq!(safe_join("/t", "..a/b..").unwrap(), "/t/..a/b..");
    assert_eq!(
        PackError::Escapes.message("../x"),
        "pack entry ../x tried to escape the target directory"
    );
}

/// Extract, refusing at that report; gives what was asked for, and how it ended.
fn extract(names: Vec<String>, refuse_at: usize) -> (Vec<String>, &'static str) {
    let names: Vec<Option<String>> = names.into_iter().map(Some).collect();
    let pack = Pack::open(&names).unwrap();
    let mut extraction = pack.extract_all("/t");
    let mut seen = Vec::new();
    loop {
        let event = match extraction.action() {
            ExtractAction::Extract { at, path } => {
                seen.push(format!("{at} {path}"));
                ExtractEvent::Extracted
            }
            ExtractAction::Report { done, total } => {
                seen.push(format!("report {done}/{total}"));
                ExtractEvent::Reported(done != refuse_at)
            }
            ExtractAction::Finish => return (seen, "finished"),
            ExtractAction::Cancelled => return (seen, "cancelled"),
            ExtractAction::Refused(rel) => {
                seen.push(rel);
                return (seen, "refused");
            }
        };
        extraction.tell(event);
    }
}

#[test]
fn extraction_reports_and_can_be_cancelled() {
    let names = || (0..66).map(|i| format!("p/{i:02}")).collect::<Vec<String>>();
    let (seen, end) = extract(names(), 66);
    assert_eq!(end, "finished");
    assert_eq!(seen.len(), 69);
    assert_eq!(&seen[..3], &["0 /t/00", "report 0/66", "1 /t/01"]);
    assert_eq!(&seen[65..], &["64 /t/64", "report 64/66", "65 /t/65", "report 66/66"]);

    let (seen, end) = extract(names(), 64);
    assert_eq!(end, "cancelled");
    assert_eq!(seen.last().unwrap(), "report 64/66");
    assert_eq!(extract(names(), 0).0, vec!["0 /t/00", "report 0/66"]);
}

#[test]
fn extraction_stops_at_an_entry_that_would_escape() {
    let names = vec!["a".to_string(), "b/../../x".to_string(), "c".to_string()];
    let (seen, end) = extract(names, 99);
    assert_eq!(end, "refused");
    assert_eq!(seen, vec!["0 /t/a", "report 0/3", "b/../../x"]);
}
