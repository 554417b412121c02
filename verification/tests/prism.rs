use gtnh_updater::prism::{
    candidate_roots, carry_over_keys, list_instances, merge_instance_cfg, new_uuid, unique_dir_name,
    FoundDir, Ini, Instance, NameError,
};

#[test]
fn carries_launch_settings_but_not_identity() {
    let pack = Ini::parse(
        "[General]\nname=GT New Horizons daily\nJvmArgs=\nMaxMemAlloc=6144\nuuid=aaa\n",
    );
    let old = Ini::parse("[General]\nname=GTNH-DAILY\nJvmArgs=-XX:+UseShenandoahGC\nMaxMemAlloc=10240\nuuid=bbb\n[UI]\nfoo=bar\n");
    let merged = merge_instance_cfg(&pack, &old, "GTNH-daily-690", &new_uuid(1, 2));
    assert_eq!(
        merged.get("General", "JvmArgs").unwrap(),
        "-XX:+UseShenandoahGC"
    );
    assert_eq!(merged.get("General", "MaxMemAlloc").unwrap(), "10240");
    assert_eq!(merged.get("General", "name").unwrap(), "GTNH-daily-690");
    assert_ne!(merged.get("General", "uuid").unwrap(), "bbb");
    assert_eq!(merged.get("UI", "foo").unwrap(), "bar");
}

/// The pack's own `instance.cfg` has no `[General]` header, so settings must
/// still be found and replaced in place rather than appended a second time.
#[test]
fn headerless_keys_belong_to_general() {
    let pack = Ini::parse("InstanceType=OneSix\nOverrideJavaArgs=false\nname=GTNH 2.9.x\n");
    assert_eq!(pack.get("General", "OverrideJavaArgs").unwrap(), "false");

    let old = Ini::parse("[General]\nOverrideJavaArgs=true\nJvmArgs=-Xmx8G\n");
    let merged = merge_instance_cfg(&pack, &old, "GTNH-daily-690", &new_uuid(1, 2));

    let text = merged.to_string();
    assert_eq!(text.matches("OverrideJavaArgs=").count(), 1, "{text}");
    assert_eq!(
        text.matches("\nname=").count() + usize::from(text.starts_with("name=")),
        1,
        "{text}"
    );
    assert_eq!(merged.get("General", "OverrideJavaArgs").unwrap(), "true");
    assert_eq!(merged.get("General", "name").unwrap(), "GTNH-daily-690");
    assert_eq!(merged.get("General", "InstanceType").unwrap(), "OneSix");
}

#[test]
fn ini_roundtrips_unknown_lines() {
    let text = "[General]\n# a comment\nkey=value\n\n[UI]\nother=1\n";
    let ini = Ini::parse(text);
    assert_eq!(ini.to_string(), text);
}

#[test]
fn what_is_set_is_read_back() {
    let mut ini = Ini::parse("a=1\n[UI]\nb=2\n");
    ini.set("General", "a", "3");
    ini.set("General", "c", "4");
    ini.set("New", "d", "5");
    assert_eq!(ini.to_string(), "a=3\nc=4\n[UI]\nb=2\n[New]\nd=5\n");
    assert_eq!(ini.get("UI", "b").unwrap(), "2");
    assert_eq!(ini.get("UI", "a"), None);
    assert_eq!(ini.keys("General"), vec!["a".to_string(), "c".to_string()]);
}

#[test]
fn keys_are_trimmed_and_lines_are_kept() {
    let text = "  key = value with = sign  \n; x=1\n#y=2\nnothing\n [ A ] \n\n";
    let ini = Ini::parse(text);
    assert_eq!(ini.get("General", "key").unwrap(), " value with = sign");
    assert_eq!(ini.keys("General").len(), 1);
    assert_eq!(ini.to_string(), text);
    assert_eq!(Ini::parse("a = 1\n").to_string(), "a = 1\n");
}

#[test]
fn a_written_file_reads_the_same() {
    let once = Ini::parse("[ A ]\r\n x =1\r\n\r\n=odd\r\n").to_string();
    assert_eq!(once, "[ A ]\n x =1\n\n=odd\n");
    assert_eq!(Ini::parse(&once).to_string(), once);
    // A carriage return inside the line stays apart from the line ending.
    let odd = Ini::parse("# a\r\r\n").to_string();
    assert_eq!(odd, "# a\r\r\n");
    assert_eq!(Ini::parse(&odd).to_string(), odd);
}

/// Only the entry that is set is written anew.
#[test]
fn setting_writes_one_line_anew() {
    let mut ini = Ini::parse(" a = 1\nb =2\n[S]\n c=3 \n# end\n");
    ini.set("General", "b", "9");
    ini.set("S", "d", "");
    ini.set("T", "e", "5");
    let text = ini.to_string();
    assert_eq!(text, " a = 1\nb=9\n[S]\n c=3 \nd=\n# end\n[T]\ne=5\n");
    let again = Ini::parse(&text);
    assert_eq!(again.get("General", "b").unwrap(), "9");
    assert_eq!(again.get("S", "d").unwrap(), "");
    assert_eq!(again.get("T", "e").unwrap(), "5");
    assert_eq!(again.get("S", "c").unwrap(), "3");
}

#[test]
fn keys_are_appended_or_kept() {
    let mut ini = Ini::parse("a=1\nb=2\n[S]\nc=3\n");
    ini.set("General", "a", "9");
    assert_eq!(ini.keys("General"), vec!["a", "b"]);
    ini.set("General", "z", "0");
    assert_eq!(ini.keys("General"), vec!["a", "b", "z"]);
    assert_eq!(ini.keys("S"), vec!["c"]);
    assert!(ini.get("S", "a").is_none());
}

#[test]
fn every_launch_setting_is_carried() {
    let mut old = Ini::default();
    for key in carry_over_keys() {
        old.set("General", key, "mine");
    }
    assert_eq!(carry_over_keys().len(), 58);
    let merged = merge_instance_cfg(&Ini::parse("lastLaunchTime=9\nother=1\n"), &old, "n", "u");
    for key in carry_over_keys() {
        assert_eq!(merged.get("General", key).unwrap(), "mine");
    }
    assert_eq!(merged.get("General", "uuid").unwrap(), "u");
    assert_eq!(merged.get("General", "lastLaunchTime").unwrap(), "0");
    assert_eq!(merged.get("General", "lastTimePlayed").unwrap(), "0");
    assert_eq!(merged.get("General", "other").unwrap(), "1");
}

#[test]
fn ids_spread_the_seed() {
    // The same generator, step by step.
    let mut state: u128 = 5u128 ^ (7u128 << 64) ^ 0x9E37_79B9_7F4A_7C15;
    let mut wanted = String::new();
    for _ in 0..32 {
        state = state
            .wrapping_mul(6364136223846793005)
            .wrapping_add(1442695040888963407);
        wanted.push(std::char::from_digit(((state >> 60) & 0xF) as u32, 16).unwrap());
    }
    assert_eq!(new_uuid(5, 7), wanted);
    assert_eq!(new_uuid(5, 7).len(), 32);
    assert_ne!(new_uuid(5, 7), new_uuid(6, 7));
}

#[test]
fn instances_go_by_their_name_and_are_sorted() {
    let found = vec![
        FoundDir { dir: "/i/b".into(), dir_name: "b".into(), cfg: Some("name=Zulu\n".into()) },
        FoundDir { dir: "/i/beta".into(), dir_name: "beta".into(), cfg: Some("x=1\n".into()) },
        FoundDir { dir: "/i/c".into(), dir_name: "ALPHA".into(), cfg: None },
    ];
    let list = list_instances(found);
    let names: Vec<&str> = list.iter().map(|i| i.name.as_str()).collect();
    assert_eq!(names, vec!["ALPHA", "beta", "Zulu"]);
    assert_eq!(list[2].dir, "/i/b");
    let inst = Instance { dir: "/i/b".into(), name: "b".into() };
    assert_eq!(inst.minecraft(), "/i/b/.minecraft");
}

#[test]
fn places_are_listed_once() {
    let roots = candidate_roots(Some("/h/.local/share"), Some("/h"), Some("/h/.config"));
    assert_eq!(
        roots,
        vec![
            "/h/.local/share/PrismLauncher/instances",
            "/h/.local/share/multimc/instances",
            "/h/.local/share/MultiMC/instances",
            "/h/.var/app/org.prismlauncher.PrismLauncher/data/PrismLauncher/instances",
            "/h/PrismLauncher/instances",
            "/h/.config/PrismLauncher/instances",
        ]
    );
    assert!(candidate_roots(None, None, None).is_empty());
}

#[test]
fn names_are_sanitised_and_numbered() {
    assert_eq!(unique_dir_name("a/b:c", |_| false).unwrap(), "a-b-c");
    assert_eq!(unique_dir_name("x", |n| n == "x" || n == "x-2").unwrap(), "x-3");
    assert_eq!(unique_dir_name("  ", |_| false), Err(NameError::Empty));
    assert_eq!(unique_dir_name("x", |_| true), Err(NameError::NoneFree));
    assert_eq!(NameError::Empty.message("x"), "instance name cannot be empty");
    assert_eq!(
        NameError::NoneFree.message("x"),
        "could not find a free directory name for x"
    );
}
