use gtnh_updater::github::{
    announced_length, artifacts_page, artifacts_url, discover_token, download_url,
    resolve_download_url, token_from_hosts, token_in, usable_token, BuildSearch, DailyArtifact,
    RawArtifact, RecentBuilds, ResolveError, TokenSource, OWNER, REPO, VARIANT_JAVA17_26,
    VARIANT_JAVA8,
};
use std::cell::RefCell;

fn daily(build: u32, variant: &str) -> DailyArtifact {
    let name = format!("GTNH-daily-2026-08-19+{build}-{variant}.zip");
    DailyArtifact::parse(build as u64, 1, &name, 10).unwrap()
}

#[test]
fn artifact_names_are_read() {
    let a = DailyArtifact::parse(
        1,
        2,
        "GTNH-daily-2026-08-19+690-mmcprism-java17-26.zip",
        700,
    )
    .unwrap();
    assert_eq!(a.date, "2026-08-19");
    assert_eq!(a.build, 690);
    assert_eq!(a.variant, VARIANT_JAVA17_26);
    assert_eq!((a.id, a.run_id, a.size), (1, 2, 700));
    assert_eq!(a.label(), "daily 690 (2026-08-19)");
}

#[test]
fn other_artifacts_are_passed_over() {
    for name in [
        "GTNH-daily-2026-08-19+690-server.zip",
        "GTNH-daily-2026-08-19+x-mmcprism.zip",
        "GTNH-daily-2026-08-19-690-mmcprism.zip",
        "GTNH-daily-2026-08-19+690.zip",
        "GTNH-daily-2026-08-19+690-mmcprism",
        "manifest.zip",
    ] {
        assert!(DailyArtifact::parse(1, 2, name, 3).is_none(), "{name}");
    }
}

#[test]
fn a_page_keeps_the_usable_packs() {
    let raw = |name: &str, expired: bool, run_id: Option<u64>| RawArtifact {
        id: 7,
        name: name.to_string(),
        size_in_bytes: 9,
        expired,
        run_id,
    };
    let page = artifacts_page(&vec![
        raw("GTNH-daily-d+5-mmcprism-java8.zip", false, None),
        raw("GTNH-daily-d+6-mmcprism-java8.zip", true, Some(1)),
        raw("other.zip", false, Some(1)),
    ]);
    assert_eq!(page.len(), 1);
    assert_eq!(page[0].build, 5);
    assert_eq!(page[0].run_id, 0);
}

#[test]
fn recent_builds_come_newest_first_and_once() {
    let mut walk = RecentBuilds::new(VARIANT_JAVA8, 2);
    assert_eq!(walk.wants(), Some(1));
    walk = walk.tell(vec![
        daily(5, VARIANT_JAVA8),
        daily(6, VARIANT_JAVA17_26),
        daily(7, VARIANT_JAVA8),
    ]);
    assert_eq!(walk.wants(), Some(2));
    walk = walk.tell(vec![daily(7, VARIANT_JAVA8), daily(4, VARIANT_JAVA8)]);
    assert_eq!(walk.wants(), None);
    let builds: Vec<u32> = walk.builds().iter().map(|a| a.build).collect();
    assert_eq!(builds, vec![7, 5, 4]);
}

#[test]
fn an_empty_page_ends_the_walk_unless_it_is_the_first() {
    let walk = RecentBuilds::new("v", 3).tell(Vec::new());
    assert_eq!(walk.wants(), Some(2));
    assert_eq!(walk.tell(Vec::new()).wants(), None);
    assert_eq!(RecentBuilds::new("v", 0).tell(Vec::new()).wants(), None);
}

#[test]
fn a_listed_build_is_found() {
    let mut search = BuildSearch::new(641, VARIANT_JAVA17_26, 8);
    search = search.tell(vec![daily(690, VARIANT_JAVA17_26), daily(660, VARIANT_JAVA8)]);
    assert_eq!(search.wants(), Some(2));
    search = search.tell(vec![daily(641, VARIANT_JAVA8), daily(641, VARIANT_JAVA17_26)]);
    assert_eq!(search.wants(), None);
    let found = search.result().unwrap();
    assert_eq!((found.build, found.variant.as_str()), (641, VARIANT_JAVA17_26));
}

#[test]
fn a_search_stops_where_only_older_builds_follow() {
    let search = BuildSearch::new(641, "v", 8).tell(vec![daily(640, VARIANT_JAVA8)]);
    assert_eq!(search.wants(), None);
    assert!(search.result().is_none());
    let none = BuildSearch::new(641, "v", 8).tell(Vec::new());
    assert_eq!(none.wants(), None);
    let last = BuildSearch::new(641, "v", 1).tell(vec![daily(700, VARIANT_JAVA8)]);
    assert_eq!(last.wants(), None);
}

#[test]
fn tokens_are_trimmed_and_unquoted() {
    assert_eq!(token_in(" abc\n").as_deref(), Some("abc"));
    assert_eq!(token_in(" \n"), None);
    assert_eq!(usable_token(Some("  ".into())), None);
    assert_eq!(usable_token(Some(" t ".into())).as_deref(), Some(" t "));
    let hosts = "github.com:\n    user: me\n    oauth_token: \"\"\n    oauth_token: \"tok\"\n";
    assert_eq!(token_from_hosts(hosts).as_deref(), Some("tok"));
    assert_eq!(token_from_hosts("oauth_token:plain").as_deref(), Some("plain"));
    assert_eq!(token_from_hosts("x: y\n"), None);
}

#[test]
fn the_first_source_with_a_token_wins() {
    let asked = RefCell::new(Vec::new());
    let token = discover_token(|s: TokenSource| {
        asked.borrow_mut().push(s);
        match s {
            TokenSource::GhVariable => Some("  ".to_string()),
            TokenSource::GithubVariable => None,
            TokenSource::Cli => Some("cli\n".to_string()),
            TokenSource::Hosts => Some("oauth_token: h".to_string()),
        }
    });
    assert_eq!(token.as_deref(), Some("cli"));
    assert_eq!(
        asked.into_inner(),
        vec![
            TokenSource::GhVariable,
            TokenSource::GithubVariable,
            TokenSource::Cli
        ]
    );
    assert_eq!(discover_token(|_: TokenSource| None), None);
}

#[test]
fn addresses_name_the_repository() {
    let base = format!("https://api.github.com/repos/{OWNER}/{REPO}/actions/artifacts");
    assert_eq!(artifacts_url(3), format!("{base}?per_page=100&page=3"));
    assert_eq!(download_url(42), format!("{base}/42/zip"));
}

#[test]
fn only_a_redirect_gives_a_download() {
    assert_eq!(resolve_download_url(302, Some("u")), Ok("u".to_string()));
    assert_eq!(resolve_download_url(302, None), Err(ResolveError::NoLocation));
    assert_eq!(resolve_download_url(403, Some("u")), Err(ResolveError::Rejected(403)));
    assert_eq!(resolve_download_url(401, None), Err(ResolveError::Rejected(401)));
    assert_eq!(resolve_download_url(200, None), Err(ResolveError::NoRedirect(200)));
    assert_eq!(resolve_download_url(400, None), Err(ResolveError::NoRedirect(400)));
    assert_eq!(
        ResolveError::Rejected(403).message(),
        "GitHub rejected the artifact request (HTTP 403). Artifact downloads require a token with `repo` or `actions:read` scope."
    );
    assert_eq!(
        ResolveError::NoRedirect(200).message(),
        "expected a redirect to the artifact storage, got HTTP 200"
    );
    assert_eq!(
        ResolveError::NoLocation.message(),
        "artifact redirect had no Location header"
    );
}

#[test]
fn announced_lengths_are_numbers() {
    assert_eq!(announced_length(Some("123")), 123);
    assert_eq!(announced_length(Some("+5")), 5);
    assert_eq!(announced_length(Some("x")), 0);
    assert_eq!(announced_length(None), 0);
}
