use gtnh_updater::text::is_white_space;
use gtnh_updater::textmap::TextMap;
use gtnh_updater::util::{human_bytes, is_text, join_path, norm_path};

#[test]
fn white_space_is_what_it_is_elsewhere() {
    for code in 0..=0x10FFFFu32 {
        if let Some(c) = char::from_u32(code) {
            assert_eq!(is_white_space(c), c.is_whitespace(), "U+{code:04X}");
        }
    }
}

#[test]
fn sizes_read_like_decimals() {
    let by_float = |n: u64| -> String {
        const UNITS: [&str; 5] = ["B", "KB", "MB", "GB", "TB"];
        let mut v = n as f64;
        let mut u = 0;
        while v >= 1024.0 && u < UNITS.len() - 1 {
            v /= 1024.0;
            u += 1;
        }
        if u == 0 {
            format!("{n} B")
        } else {
            format!("{v:.1} {}", UNITS[u])
        }
    };
    let mut samples = vec![0, 1, 1023, 1024, 1025, 1536, 1075, 1076, 1_048_575, 1_048_576, u64::MAX];
    let mut x: u64 = 12345;
    for i in 0..5000u64 {
        x = x.wrapping_mul(6364136223846793005).wrapping_add(1442695040888963407);
        samples.push(x >> (i % 60));
        samples.push(1024 + i);
        samples.push((1 << 20) + i * 51);
        samples.push((1u64 << 53) + i);
    }
    for n in samples {
        assert_eq!(human_bytes(n), by_float(n), "{n}");
    }
    assert_eq!(human_bytes(700_000_000), "667.6 MB");
}

#[test]
fn text_is_utf8_without_nul() {
    assert!(is_text(b""));
    assert!(is_text("grüße\n".as_bytes()));
    assert!(!is_text(b"a\x00b"));
    assert!(!is_text(&[0xFF, 0xFE]));
    let mut late = vec![b'a'; 9000];
    assert!(is_text(&late));
    late.push(0);
    assert!(!is_text(&late));
}

#[test]
fn paths_are_normalised() {
    assert_eq!(norm_path(".\\a\\b"), "a/b");
    assert_eq!(norm_path("././a"), "a");
    assert_eq!(norm_path("a/./b"), "a/./b");
    assert_eq!(norm_path(&norm_path(".\\./x")), norm_path(".\\./x"));
    assert_eq!(join_path("/a", "b"), "/a/b");
    assert_eq!(join_path("/a/", "b"), "/a/b");
    assert_eq!(join_path("/a", "/b"), "/b");
    assert_eq!(join_path("", "b"), "b");
}

#[test]
fn maps_are_walked_in_order() {
    let mut map = TextMap::new();
    for (k, v) in [("b", 1), ("a", 2), ("ä", 3), ("b", 4), ("", 5), ("B", 6)] {
        map.insert(k.to_string(), v);
    }
    let mut wanted = std::collections::BTreeMap::new();
    for (k, v) in [("b", 1), ("a", 2), ("ä", 3), ("b", 4), ("", 5), ("B", 6)] {
        wanted.insert(k.to_string(), v);
    }
    let walked: Vec<(String, i32)> = map.entries.iter().map(|(k, v)| (k.clone(), *v)).collect();
    assert_eq!(walked, wanted.into_iter().collect::<Vec<(String, i32)>>());
    assert_eq!(map.get("b"), Some(&4));
    assert_eq!(map.get("c"), None);
    assert_eq!(map.len(), 5);
}
