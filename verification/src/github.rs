//! GitHub Actions access for the DreamAssemblerXXL daily modpack builds.
//!
//! Daily artifacts are named like `GTNH-daily-2026-08-19+690-mmcprism-java17-26.zip`.
//! The repo-level artifacts endpoint returns them newest-first with their run id,
//! so a single page covers the last ~16 builds.
use vstd::prelude::*;
use vstd::string::*;

use crate::mods::collected;
use crate::order::{sort_by_keys, sorted, SortKey};
use crate::text::{
    bare_lines, chars_of, cut_once, decimal, decimal_of, lines, parse_nat, same, split_once,
    starts_with, string_of, strip_prefix, strip_suffix, texts, trim, trimmed, u32_in, u64_in,
    without_prefix, without_suffix,
};

verus! {

pub const OWNER: &'static str = "GTNewHorizons";

pub const REPO: &'static str = "DreamAssemblerXXL";

/// The Prism/MultiMC client variant we know how to install.
pub const VARIANT_JAVA17_26: &'static str = "mmcprism-java17-26";

pub const VARIANT_JAVA8: &'static str = "mmcprism-java8";

// ---------------------------------------------------------------------------
// Artifacts
// ---------------------------------------------------------------------------

#[derive(Debug, Clone, PartialEq, Eq)]
pub struct DailyArtifact {
    pub id: u64,
    pub run_id: u64,
    pub name: String,
    pub size: u64,
    /// `2026-08-19`
    pub date: String,
    /// `690`
    pub build: u32,
    /// `mmcprism-java17-26`
    pub variant: String,
}

/// An artifact as texts.
pub struct ArtifactView {
    pub id: u64,
    pub run_id: u64,
    pub name: Seq<char>,
    pub size: u64,
    pub date: Seq<char>,
    pub build: u32,
    pub variant: Seq<char>,
}

impl View for DailyArtifact {
    type V = ArtifactView;

    open spec fn view(&self) -> ArtifactView {
        ArtifactView {
            id: self.id,
            run_id: self.run_id,
            name: self.name@,
            size: self.size,
            date: self.date@,
            build: self.build,
            variant: self.variant@,
        }
    }
}

pub open spec fn artifact_views(s: Seq<DailyArtifact>) -> Seq<ArtifactView> {
    s.map_values(|a: DailyArtifact| a@)
}

/// Date, build and variant in the name of a daily artifact:
/// `GTNH-daily-<date>+<build>-<variant>.zip`.
pub open spec fn name_parts(name: Seq<char>) -> Option<(Seq<char>, u32, Seq<char>)> {
    match strip_suffix(name, ".zip"@) {
        Some(stem) => match strip_prefix(stem, "GTNH-daily-"@) {
            Some(rest) => match split_once(rest, '+') {
                Some((date, rest)) => match split_once(rest, '-') {
                    Some((build, variant)) => match parse_nat(build, u32::MAX as nat) {
                        Some(build) => if "mmcprism"@.is_prefix_of(variant) {
                            Some((date, build as u32, variant))
                        } else {
                            None
                        },
                        None => None,
                    },
                    None => None,
                },
                None => None,
            },
            None => None,
        },
        None => None,
    }
}

pub open spec fn artifact_of(id: u64, run_id: u64, name: Seq<char>, size: u64) -> Option<
    ArtifactView,
> {
    match name_parts(name) {
        Some((date, build, variant)) => Some(
            ArtifactView { id, run_id, name, size, date, build, variant },
        ),
        None => None,
    }
}

impl DailyArtifact {
    /// Parse `GTNH-daily-<date>+<build>-<variant>.zip`. Returns `None` for
    /// anything else in the artifact list (server packs, manifests, bundles).
    pub fn parse(id: u64, run_id: u64, name: &str, size: u64) -> (r: Option<Self>)
        ensures
            r is Some <==> artifact_of(id, run_id, name@, size) is Some,
            r matches Some(a) ==> artifact_of(id, run_id, name@, size) == Some(a@),
    {
        let stem = match without_suffix(name, ".zip") {
            Some(stem) => stem,
            None => return None,
        };
        let rest = match without_prefix(stem.as_str(), "GTNH-daily-") {
            Some(rest) => rest,
            None => return None,
        };
        let (date, rest) = match cut_once(rest.as_str(), '+') {
            Some(parts) => parts,
            None => return None,
        };
        let (build, variant) = match cut_once(rest.as_str(), '-') {
            Some(parts) => parts,
            None => return None,
        };
        let build: u32 = match u32_in(build.as_str()) {
            Some(build) => build,
            None => return None,
        };
        if !starts_with(variant.as_str(), "mmcprism") {
            return None;
        }
        Some(DailyArtifact { id, run_id, name: name.to_owned(), size, date, build, variant })
    }

    pub fn label(&self) -> (r: String)
        ensures
            r@ == "daily "@ + decimal(self.build as nat) + " ("@ + self.date@ + ")"@,
    {
        let mut out = "daily ".to_owned();
        out.append(decimal_of(self.build as u64).as_str());
        out.append(" (");
        out.append(self.date.as_str());
        out.append(")");
        out
    }

    pub(crate) fn duplicate(&self) -> (r: Self)
        ensures
            r@ == self@,
    {
        DailyArtifact {
            id: self.id,
            run_id: self.run_id,
            name: self.name.clone(),
            size: self.size,
            date: self.date.clone(),
            build: self.build,
            variant: self.variant.clone(),
        }
    }
}

/// An entry of the artifact list as GitHub describes it.
#[derive(Debug, Clone)]
pub struct RawArtifact {
    pub id: u64,
    pub name: String,
    pub size_in_bytes: u64,
    pub expired: bool,
    pub run_id: Option<u64>,
}

/// A non-expired Prism client pack.
pub open spec fn usable(raw: RawArtifact) -> Option<ArtifactView> {
    if raw.expired {
        None
    } else {
        artifact_of(
            raw.id,
            match raw.run_id {
                Some(id) => id,
                None => 0,
            },
            raw.name@,
            raw.size_in_bytes,
        )
    }
}

pub open spec fn page_of(raw: Seq<RawArtifact>) -> Seq<ArtifactView> {
    collected(raw, |a: RawArtifact| usable(a))
}

/// One page of the repo's artifacts, newest first, keeping only non-expired Prism
/// client packs.
pub fn artifacts_page(raw: &Vec<RawArtifact>) -> (r: Vec<DailyArtifact>)
    ensures
        artifact_views(r@) == page_of(raw@),
{
    let mut out: Vec<DailyArtifact> = Vec::new();
    let ghost f = |a: RawArtifact| usable(a);
    let mut i: usize = 0;
    proof {
        assert(raw@.take(0) =~= Seq::empty());
        assert(artifact_views(out@) =~= Seq::empty());
    }
    while i < raw.len()
        invariant
            f == (|a: RawArtifact| usable(a)),
            i <= raw.len(),
            artifact_views(out@) == collected(raw@.take(i as int), f),
        decreases raw.len() - i,
    {
        let ghost o0 = artifact_views(out@);
        proof {
            assert(raw@.take(i + 1).drop_last() =~= raw@.take(i as int));
            assert(f(raw@[i as int]) == usable(raw@[i as int]));
        }
        if !raw[i].expired {
            let run: u64 = match raw[i].run_id {
                Some(id) => id,
                None => 0,
            };
            let parsed = DailyArtifact::parse(
                raw[i].id,
                run,
                raw[i].name.as_str(),
                raw[i].size_in_bytes,
            );
            if let Some(a) = parsed {
                let ghost av = a@;
                out.push(a);
                assert(artifact_views(out@) =~= o0.push(av));
            }
        }
        i += 1;
    }
    assert(raw@.take(i as int) =~= raw@);
    out
}

// ---------------------------------------------------------------------------
// The newest builds
// ---------------------------------------------------------------------------

pub open spec fn if_variant(a: ArtifactView, variant: Seq<char>) -> Option<ArtifactView> {
    if a.variant == variant {
        Some(a)
    } else {
        None
    }
}

pub open spec fn of_variant(batch: Seq<ArtifactView>, variant: Seq<char>) -> Seq<ArtifactView> {
    collected(batch, |a: ArtifactView| if_variant(a, variant))
}

pub open spec fn build_keys(s: Seq<ArtifactView>) -> Seq<(u64, Seq<char>)> {
    s.map_values(|a: ArtifactView| ((u64::MAX - a.build as u64) as u64, Seq::<char>::empty()))
}

/// Of neighbours with the same build the first stays.
pub open spec fn one_each(s: Seq<ArtifactView>) -> Seq<ArtifactView>
    decreases s.len(),
{
    if s.len() == 0 {
        Seq::empty()
    } else {
        let init = one_each(s.drop_last());
        if init.len() > 0 && init.last().build == s.last().build {
            init
        } else {
            init.push(s.last())
        }
    }
}

/// The newest build first, each build once.
pub open spec fn newest_first(found: Seq<ArtifactView>) -> Seq<ArtifactView> {
    one_each(sorted(found, build_keys(found)))
}

/// The walk through the artifact list that collects the newest builds: it says
/// which page it wants next, and is told what is on it.
#[derive(Debug)]
pub struct RecentBuilds {
    variant: String,
    pages: u32,
    page: u32,
    over: bool,
    found: Vec<DailyArtifact>,
}

/// The walk as texts. `page` is the page that it is at.
pub struct RecentView {
    pub variant: Seq<char>,
    pub pages: int,
    pub page: int,
    pub over: bool,
    pub found: Seq<ArtifactView>,
}

impl View for RecentBuilds {
    type V = RecentView;

    closed spec fn view(&self) -> RecentView {
        RecentView {
            variant: self.variant@,
            pages: self.pages as int,
            page: self.page as int,
            over: self.over,
            found: artifact_views(self.found@),
        }
    }
}

impl RecentView {
    /// The walk behind a page with these artifacts on it. A page without any ends
    /// it, unless it is the first.
    pub open spec fn told(self, batch: Seq<ArtifactView>) -> RecentView {
        if self.over {
            self
        } else if batch.len() == 0 && self.page > 1 {
            RecentView { over: true, ..self }
        } else {
            let found = self.found + of_variant(batch, self.variant);
            if self.page >= self.pages {
                RecentView { over: true, found, ..self }
            } else {
                RecentView { page: self.page + 1, found, ..self }
            }
        }
    }
}

fn keep_variant(out: &mut Vec<DailyArtifact>, batch: Vec<DailyArtifact>, variant: &str)
    ensures
        artifact_views(final(out)@) == artifact_views(old(out)@) + of_variant(
            artifact_views(batch@),
            variant@,
        ),
{
    let ghost start = artifact_views(out@);
    let ghost all = artifact_views(batch@);
    let ghost f = |a: ArtifactView| if_variant(a, variant@);
    let mut i: usize = 0;
    proof {
        assert(all.take(0) =~= Seq::empty());
        assert(start + Seq::<ArtifactView>::empty() =~= start);
    }
    while i < batch.len()
        invariant
            all == artifact_views(batch@),
            f == (|a: ArtifactView| if_variant(a, variant@)),
            i <= batch.len(),
            artifact_views(out@) == start + collected(all.take(i as int), f),
        decreases batch.len() - i,
    {
        let ghost o0 = artifact_views(out@);
        let ghost so_far = collected(all.take(i as int), f);
        proof {
            assert(all.take(i + 1).drop_last() =~= all.take(i as int));
            assert(all.take(i + 1).last() == batch@[i as int]@);
        }
        if same(batch[i].variant.as_str(), variant) {
            let a = batch[i].duplicate();
            let ghost av = a@;
            out.push(a);
            proof {
                assert(artifact_views(out@) =~= o0.push(av));
                assert(f(all[i as int]) == Some(av));
                assert(start + so_far.push(av) =~= o0.push(av));
            }
        }
        i += 1;
    }
    assert(all.take(i as int) =~= all);
}

impl RecentBuilds {
    pub closed spec fn wf(self) -> bool {
        1 <= self.page <= self.pages
    }

    /// Look through the first `pages` pages, at least one.
    pub fn new(variant: &str, pages: u32) -> (r: Self)
        ensures
            r.wf(),
            r@ == (RecentView {
                variant: variant@,
                pages: if pages == 0 {
                    1
                } else {
                    pages as int
                },
                page: 1,
                over: false,
                found: Seq::empty(),
            }),
    {
        let r = RecentBuilds {
            variant: variant.to_owned(),
            pages: if pages == 0 {
                1
            } else {
                pages
            },
            page: 1,
            over: false,
            found: Vec::new(),
        };
        assert(r@.found =~= Seq::empty());
        r
    }

    /// The page that is wanted next.
    pub fn wants(&self) -> (r: Option<u32>)
        ensures
            r is None <==> self@.over,
            r matches Some(page) ==> page == self@.page,
    {
        if self.over {
            None
        } else {
            Some(self.page)
        }
    }

    /// What is on the page.
    pub fn tell(self, batch: Vec<DailyArtifact>) -> (r: Self)
        requires
            self.wf(),
        ensures
            r.wf(),
            r@ == self@.told(artifact_views(batch@)),
    {
        let mut list = self;
        if list.over {
            return list;
        }
        if batch.len() == 0 && list.page > 1 {
            list.over = true;
            return list;
        }
        keep_variant(&mut list.found, batch, list.variant.as_str());
        if list.page >= list.pages {
            list.over = true;
        } else {
            list.page += 1;
        }
        list
    }

    /// The newest available builds for the variant, newest first.
    pub fn builds(self) -> (r: Vec<DailyArtifact>)
        ensures
            artifact_views(r@) == newest_first(self@.found),
    {
        let ghost views = artifact_views(self.found@);
        let mut keys: Vec<SortKey> = Vec::new();
        let mut i: usize = 0;
        while i < self.found.len()
            invariant
                views == artifact_views(self.found@),
                i <= self.found.len(),
                keys.len() == i,
                forall|j: int| 0 <= j < i ==> #[trigger] keys@[j]@ == build_keys(views)[j],
            decreases self.found.len() - i,
        {
            let key = SortKey {
                number: u64::MAX - self.found[i].build as u64,
                text: String::new(),
            };
            assert(key@ == build_keys(views)[i as int]);
            keys.push(key);
            i += 1;
        }
        proof {
            assert(crate::order::key_views(keys@) =~= build_keys(views));
            crate::order::lemma_sorted_map(self.found@, build_keys(views), |a: DailyArtifact| a@);
        }
        let all = sort_by_keys(self.found, keys);
        let ghost ordered = artifact_views(all@);
        let mut out: Vec<DailyArtifact> = Vec::new();
        let mut k: usize = 0;
        proof {
            assert(ordered.take(0) =~= Seq::empty());
            assert(artifact_views(out@) =~= Seq::empty());
        }
        while k < all.len()
            invariant
                ordered == artifact_views(all@),
                k <= all.len(),
                artifact_views(out@) == one_each(ordered.take(k as int)),
            decreases all.len() - k,
        {
            let ghost o0 = artifact_views(out@);
            proof {
                assert(ordered.take(k + 1).drop_last() =~= ordered.take(k as int));
                assert(ordered.take(k + 1).last() == all@[k as int]@);
                if out.len() > 0 {
                    assert(o0.last() == out@[out.len() - 1]@);
                }
            }
            let repeated = out.len() > 0 && out[out.len() - 1].build == all[k].build;
            if !repeated {
                let a = all[k].duplicate();
                let ghost av = a@;
                out.push(a);
                assert(artifact_views(out@) =~= o0.push(av));
            }
            k += 1;
        }
        assert(ordered.take(k as int) =~= ordered);
        out
    }
}

// ---------------------------------------------------------------------------
// One build
// ---------------------------------------------------------------------------

pub open spec fn is_wanted(a: ArtifactView, build: u32, variant: Seq<char>) -> bool {
    a.build == build && a.variant == variant
}

/// The first artifact of that build and variant at or behind `from`.
pub open spec fn first_wanted(
    batch: Seq<ArtifactView>,
    build: u32,
    variant: Seq<char>,
    from: int,
) -> Option<ArtifactView>
    decreases batch.len() - from,
{
    if from >= batch.len() {
        None
    } else if is_wanted(batch[from], build, variant) {
        Some(batch[from])
    } else {
        first_wanted(batch, build, variant, from + 1)
    }
}

/// Some artifact of the page is older than the build.
pub open spec fn goes_past(batch: Seq<ArtifactView>, build: u32) -> bool {
    exists|i: int| 0 <= i < batch.len() && (#[trigger] batch[i]).build < build
}

/// The walk back through the artifact list looking for one specific build. Used
/// to recover the pristine files of the version currently installed.
#[derive(Debug)]
pub struct BuildSearch {
    build: u32,
    variant: String,
    pages: u32,
    page: u32,
    over: bool,
    found: Option<DailyArtifact>,
}

/// The search as texts. `page` is the page that it is at.
pub struct SearchView {
    pub build: u32,
    pub variant: Seq<char>,
    pub pages: int,
    pub page: int,
    pub over: bool,
    pub found: Option<ArtifactView>,
}

pub open spec fn optional_artifact(a: Option<DailyArtifact>) -> Option<ArtifactView> {
    match a {
        Some(a) => Some(a@),
        None => None,
    }
}

impl View for BuildSearch {
    type V = SearchView;

    closed spec fn view(&self) -> SearchView {
        SearchView {
            build: self.build,
            variant: self.variant@,
            pages: self.pages as int,
            page: self.page as int,
            over: self.over,
            found: optional_artifact(self.found),
        }
    }
}

impl SearchView {
    /// The search behind a page with these artifacts on it. It is over when the
    /// build is found, when there is nothing on the page, when the page holds
    /// something older than the build (artifacts come back newest-first, so there
    /// is no point looking further), and at the last page.
    pub open spec fn told(self, batch: Seq<ArtifactView>) -> SearchView {
        if self.over {
            self
        } else {
            let found = first_wanted(batch, self.build, self.variant, 0);
            if batch.len() == 0 || found is Some || goes_past(batch, self.build) || self.page
                >= self.pages {
                SearchView { over: true, found, ..self }
            } else {
                SearchView { page: self.page + 1, ..self }
            }
        }
    }
}

impl BuildSearch {
    pub closed spec fn wf(self) -> bool {
        1 <= self.page <= self.pages
    }

    /// Look through the first `max_pages` pages, at least one.
    pub fn new(build: u32, variant: &str, max_pages: u32) -> (r: Self)
        ensures
            r.wf(),
            r@ == (SearchView {
                build,
                variant: variant@,
                pages: if max_pages == 0 {
                    1
                } else {
                    max_pages as int
                },
                page: 1,
                over: false,
                found: None,
            }),
    {
        BuildSearch {
            build,
            variant: variant.to_owned(),
            pages: if max_pages == 0 {
                1
            } else {
                max_pages
            },
            page: 1,
            over: false,
            found: None,
        }
    }

    /// The page that is wanted next.
    pub fn wants(&self) -> (r: Option<u32>)
        ensures
            r is None <==> self@.over,
            r matches Some(page) ==> page == self@.page,
    {
        if self.over {
            None
        } else {
            Some(self.page)
        }
    }

    /// What is on the page.
    pub fn tell(self, batch: Vec<DailyArtifact>) -> (r: Self)
        requires
            self.wf(),
        ensures
            r.wf(),
            r@ == self@.told(artifact_views(batch@)),
    {
        let mut search = self;
        if search.over {
            return search;
        }
        let ghost all = artifact_views(batch@);
        let ghost whole = first_wanted(all, search.build, search.variant@, 0);
        let mut past: bool = false;
        let mut found: Option<DailyArtifact> = None;
        let mut i: usize = 0;
        while i < batch.len()
            invariant
                all == artifact_views(batch@),
                whole == first_wanted(all, search.build, search.variant@, 0),
                i <= batch.len(),
                past == (exists|j: int| 0 <= j < i && (#[trigger] all[j]).build < search.build),
                found is None ==> whole == first_wanted(
                    all,
                    search.build,
                    search.variant@,
                    i as int,
                ),
                found is Some ==> whole == optional_artifact(found),
            decreases batch.len() - i,
        {
            assert(all[i as int] == batch@[i as int]@);
            if batch[i].build < search.build {
                past = true;
                assert(all[i as int].build < search.build);
            }
            if found.is_none() && batch[i].build == search.build && same(
                batch[i].variant.as_str(),
                search.variant.as_str(),
            ) {
                found = Some(batch[i].duplicate());
            }
            i += 1;
        }
        if batch.len() == 0 || found.is_some() || past || search.page >= search.pages {
            search.over = true;
            search.found = found;
        } else {
            search.page += 1;
        }
        search
    }

    /// The build, if it was found.
    pub fn result(self) -> (r: Option<DailyArtifact>)
        ensures
            optional_artifact(r) == self@.found,
    {
        self.found
    }
}

// ---------------------------------------------------------------------------
// Tokens
// ---------------------------------------------------------------------------

/// A text without the quotes around it.
pub open spec fn unquoted_front(s: Seq<char>) -> Seq<char>
    decreases s.len(),
{
    if s.len() > 0 && s[0] == '"' {
        unquoted_front(s.skip(1))
    } else {
        s
    }
}

pub open spec fn unquoted(s: Seq<char>) -> Seq<char>
    decreases s.len(),
{
    if s.len() > 0 && s.last() == '"' {
        unquoted(s.drop_last())
    } else {
        unquoted_front(s)
    }
}

pub open spec fn non_empty(s: Seq<char>) -> Option<Seq<char>> {
    if s.len() == 0 {
        None
    } else {
        Some(s)
    }
}

/// The token in a line of `hosts.yml`.
pub open spec fn token_in_line(line: Seq<char>) -> Option<Seq<char>> {
    match strip_prefix(trim(line), "oauth_token:"@) {
        Some(v) => non_empty(unquoted(trim(v))),
        None => None,
    }
}

/// The first token in the lines from `from` on.
pub open spec fn first_token(all: Seq<Seq<char>>, from: int) -> Option<Seq<char>>
    decreases all.len() - from,
{
    if from >= all.len() {
        None
    } else {
        match token_in_line(all[from]) {
            Some(t) => Some(t),
            None => first_token(all, from + 1),
        }
    }
}

fn without_quotes(s: &str) -> (r: String)
    ensures
        r@ == unquoted(s@),
{
    let v = chars_of(s);
    let mut to: usize = v.len();
    assert(s@.take(to as int) =~= s@);
    while to > 0 && v[to - 1] == '"'
        invariant
            v@ == s@,
            to <= v.len(),
            unquoted(s@) == unquoted(s@.take(to as int)),
        decreases to,
    {
        assert(s@.take(to as int).last() == s@[to - 1]);
        assert(s@.take(to as int).drop_last() =~= s@.take(to - 1));
        to -= 1;
    }
    let ghost rest = s@.take(to as int);
    proof {
        if to > 0 {
            assert(rest.last() == s@[to - 1]);
        }
        assert(rest.skip(0) =~= rest);
    }
    let mut from: usize = 0;
    while from < to && v[from] == '"'
        invariant
            v@ == s@,
            from <= to <= v.len(),
            rest == s@.take(to as int),
            unquoted(s@) == unquoted_front(rest.skip(from as int)),
        decreases to - from,
    {
        assert(rest.skip(from as int)[0] == s@[from as int]);
        assert(rest.skip(from as int).skip(1) =~= rest.skip(from + 1));
        from += 1;
    }
    proof {
        if from < to {
            assert(rest.skip(from as int)[0] == s@[from as int]);
        }
        assert(s@.subrange(from as int, to as int) =~= rest.skip(from as int));
    }
    string_of(&v, from, to)
}

/// The token in a text: what is left when it is trimmed.
pub fn token_in(text: &str) -> (r: Option<String>)
    ensures
        r is Some <==> non_empty(trim(text@)) is Some,
        r matches Some(t) ==> non_empty(trim(text@)) == Some(t@),
{
    let t = trimmed(text);
    if chars_of(t.as_str()).len() == 0 {
        None
    } else {
        Some(t)
    }
}

/// The token in `hosts.yml`: a flat `github.com:` block with an `oauth_token:`
/// line.
pub fn token_from_hosts(text: &str) -> (r: Option<String>)
    ensures
        r is Some <==> first_token(lines(text@), 0) is Some,
        r matches Some(t) ==> first_token(lines(text@), 0) == Some(t@),
{
    let rows = bare_lines(text);
    let ghost all = texts(rows@);
    let mut i: usize = 0;
    while i < rows.len()
        invariant
            all == texts(rows@),
            all == lines(text@),
            i <= rows.len(),
            first_token(all, 0) == first_token(all, i as int),
        decreases rows.len() - i,
    {
        assert(all[i as int] == rows@[i as int]@);
        let line = trimmed(rows[i].as_str());
        if let Some(v) = without_prefix(line.as_str(), "oauth_token:") {
            let token = without_quotes(trimmed(v.as_str()).as_str());
            if chars_of(token.as_str()).len() != 0 {
                return Some(token);
            }
        }
        i += 1;
    }
    None
}

/// Where a token can come from.
#[derive(Debug, Clone, Copy, PartialEq, Eq, Structural)]
pub enum TokenSource {
    /// The environment variable `GH_TOKEN`.
    GhVariable,
    /// The environment variable `GITHUB_TOKEN`.
    GithubVariable,
    /// What `gh auth token` prints.
    Cli,
    /// The configuration file of the `gh` CLI.
    Hosts,
}

/// The token in what a source holds.
pub open spec fn token_from(source: TokenSource, text: Seq<char>) -> Option<Seq<char>> {
    if source == TokenSource::Hosts {
        first_token(lines(text), 0)
    } else {
        non_empty(trim(text))
    }
}

/// The sources in the order in which they are asked.
pub open spec fn token_source(n: int) -> TokenSource {
    if n == 0 {
        TokenSource::GhVariable
    } else if n == 1 {
        TokenSource::GithubVariable
    } else if n == 2 {
        TokenSource::Cli
    } else {
        TokenSource::Hosts
    }
}

/// `look` may have found this text in a source, or nothing.
pub open spec fn looked<F: Fn(TokenSource) -> Option<String>>(
    look: F,
    source: TokenSource,
    text: Option<Seq<char>>,
) -> bool {
    exists|s: Option<String>|
        #[trigger] call_ensures(look, (source,), s) && crate::merge::optional_text(s) == text
}

/// The source gave no token.
pub open spec fn gave_none<F: Fn(TokenSource) -> Option<String>>(
    look: F,
    source: TokenSource,
) -> bool {
    looked(look, source, None) || exists|text: Seq<char>|
        #[trigger] looked(look, source, Some(text)) && token_from(source, text) is None
}

/// The source gave this token.
pub open spec fn gave<F: Fn(TokenSource) -> Option<String>>(
    look: F,
    source: TokenSource,
    token: Seq<char>,
) -> bool {
    exists|text: Seq<char>|
        #[trigger] looked(look, source, Some(text)) && token_from(source, text) == Some(token)
}

/// Look for a token in the environment, then fall back to the `gh` CLI and its
/// config file. Artifact downloads need auth even on public repos. `look` gives
/// what a source holds, if there is such a source; it is asked for a source only
/// when the ones before it gave no token.
pub fn discover_token<F: Fn(TokenSource) -> Option<String>>(look: F) -> (r: Option<String>)
    requires
        forall|s: TokenSource| #[trigger] call_requires(look, (s,)),
    ensures
        r matches Some(t) ==> exists|n: int|
            {
                &&& 0 <= n < 4
                &&& gave(look, #[trigger] token_source(n), t@)
                &&& forall|k: int| 0 <= k < n ==> gave_none(look, #[trigger] token_source(k))
            },
        r is None ==> forall|k: int| 0 <= k < 4 ==> gave_none(look, #[trigger] token_source(k)),
{
    let mut n: usize = 0;
    while n < 4
        invariant
            n <= 4,
            forall|s: TokenSource| #[trigger] call_requires(look, (s,)),
            forall|k: int| 0 <= k < n ==> gave_none(look, #[trigger] token_source(k)),
        decreases 4 - n,
    {
        let source = if n == 0 {
            TokenSource::GhVariable
        } else if n == 1 {
            TokenSource::GithubVariable
        } else if n == 2 {
            TokenSource::Cli
        } else {
            TokenSource::Hosts
        };
        assert(source == token_source(n as int));
        let held = look(source);
        assert(looked(look, source, crate::merge::optional_text(held)));
        if let Some(text) = &held {
            let token = if source == TokenSource::Hosts {
                token_from_hosts(text.as_str())
            } else {
                token_in(text.as_str())
            };
            assert(looked(look, source, Some(text@)));
            if token.is_some() {
                assert(gave(look, source, token->0@));
                return token;
            }
        }
        assert(gave_none(look, source));
        n += 1;
    }
    None
}

/// A token to use: a blank one counts as none.
pub fn usable_token(token: Option<String>) -> (r: Option<String>)
    ensures
        r == (match token {
            Some(t) => if trim(t@).len() == 0 {
                None::<String>
            } else {
                token
            },
            None => None::<String>,
        }),
{
    match token {
        Some(t) => {
            if chars_of(trimmed(t.as_str()).as_str()).len() == 0 {
                None
            } else {
                Some(t)
            }
        },
        None => None,
    }
}

// ---------------------------------------------------------------------------
// Requests and replies
// ---------------------------------------------------------------------------

/// The address of one page (100 entries) of the repo's artifacts.
pub fn artifacts_url(page: u32) -> (r: String)
    ensures
        r@ == "https://api.github.com/repos/GTNewHorizons/DreamAssemblerXXL/actions/artifacts?per_page=100&page="@
            + decimal(page as nat),
{
    let mut out =
        "https://api.github.com/repos/GTNewHorizons/DreamAssemblerXXL/actions/artifacts?per_page=100&page=".to_owned();
    out.append(decimal_of(page as u64).as_str());
    out
}

/// The address that redirects to an artifact's download.
pub fn download_url(artifact_id: u64) -> (r: String)
    ensures
        r@ == "https://api.github.com/repos/GTNewHorizons/DreamAssemblerXXL/actions/artifacts/"@
            + decimal(artifact_id as nat) + "/zip"@,
{
    let mut out =
        "https://api.github.com/repos/GTNewHorizons/DreamAssemblerXXL/actions/artifacts/".to_owned();
    out.append(decimal_of(artifact_id).as_str());
    out.append("/zip");
    out
}

/// Why an artifact has no download address.
#[derive(Debug, Clone, Copy, PartialEq, Eq, Structural)]
pub enum ResolveError {
    /// GitHub turned the request down.
    Rejected(u16),
    /// The reply is no redirect.
    NoRedirect(u16),
    /// The redirect leads nowhere.
    NoLocation,
}

impl ResolveError {
    /// What to tell the user.
    pub fn message(self) -> (r: String)
        ensures
            r@ == (match self {
                ResolveError::Rejected(status) =>
                    "GitHub rejected the artifact request (HTTP "@ + decimal(status as nat)
                    + "). Artifact downloads require a token with `repo` or `actions:read` scope."@,
                ResolveError::NoRedirect(status) =>
                    "expected a redirect to the artifact storage, got HTTP "@ + decimal(
                    status as nat,
                ),
                ResolveError::NoLocation => "artifact redirect had no Location header"@,
            }),
    {
        match self {
            ResolveError::Rejected(status) => {
                let mut out = "GitHub rejected the artifact request (HTTP ".to_owned();
                out.append(decimal_of(status as u64).as_str());
                out.append(
                    "). Artifact downloads require a token with `repo` or `actions:read` scope.",
                );
                out
            },
            ResolveError::NoRedirect(status) => {
                let mut out = "expected a redirect to the artifact storage, got HTTP ".to_owned();
                out.append(decimal_of(status as u64).as_str());
                out
            },
            ResolveError::NoLocation => "artifact redirect had no Location header".to_owned(),
        }
    }
}

/// Resolve the reply of the artifact download endpoint to its signed storage URL
/// without pulling the body. That URL supports byte ranges; the API endpoint does
/// not.
pub fn resolve_download_url(status: u16, location: Option<&str>) -> (r: Result<
    String,
    ResolveError,
>)
    ensures
        r is Ok <==> 300 <= status < 400 && location is Some,
        r matches Ok(url) ==> url@ == location->0@,
        r matches Err(e) ==> e == (if 300 <= status < 400 {
            ResolveError::NoLocation
        } else if status == 401 || status == 403 {
            ResolveError::Rejected(status)
        } else {
            ResolveError::NoRedirect(status)
        }),
{
    if status < 300 || status >= 400 {
        if status == 401 || status == 403 {
            return Err(ResolveError::Rejected(status));
        }
        return Err(ResolveError::NoRedirect(status));
    }
    match location {
        Some(url) => Ok(url.to_owned()),
        None => Err(ResolveError::NoLocation),
    }
}

/// The length that a reply announces; zero if it announces none.
pub fn announced_length(header: Option<&str>) -> (r: u64)
    ensures
        r == (match header {
            Some(v) => match parse_nat(v@, u64::MAX as nat) {
                Some(n) => n,
                None => 0,
            },
            None => 0,
        }),
{
    match header {
        Some(v) => match u64_in(v) {
            Some(n) => n,
            None => 0,
        },
        None => 0,
    }
}

// ---------------------------------------------------------------------------
// Laws
// ---------------------------------------------------------------------------

/// The name of a daily artifact.
pub open spec fn artifact_name(date: Seq<char>, build: u32, variant: Seq<char>) -> Seq<char> {
    "GTNH-daily-"@ + ((date.push('+') + decimal(build as nat)).push('-') + variant) + ".zip"@
}

/// A name reads back as the date, build and variant it was made of.
#[verifier::rlimit(40)]
pub proof fn law_an_artifact_name_reads_back(date: Seq<char>, build: u32, variant: Seq<char>)
    requires
        !date.contains('+'),
        "mmcprism"@.is_prefix_of(variant),
    ensures
        name_parts(artifact_name(date, build, variant)) == Some((date, build, variant)),
{
    let d = decimal(build as nat);
    let front = date.push('+') + d;
    let rest = front.push('-') + variant;
    let stem = "GTNH-daily-"@ + rest;
    let name = artifact_name(date, build, variant);
    let zip = ".zip"@;
    let head = "GTNH-daily-"@;
    crate::text::lemma_parse_decimal(build as nat, u32::MAX as nat);
    crate::text::lemma_decimal_reads_back(build as nat);
    assert(name.skip(name.len() - zip.len()) =~= zip);
    assert(name.take(name.len() - zip.len()) =~= stem);
    assert(stem.take(head.len() as int) =~= head);
    assert(stem.skip(head.len() as int) =~= rest);
    let k = date.len() as int;
    assert forall|j: int| 0 <= j < k implies rest[j] != '+' by {
        assert(rest[j] == date[j]);
        assert(date.contains(date[j]));
    }
    assert(rest[k] == '+');
    crate::text::lemma_find_is(rest, '+', 0, k);
    assert(rest.take(k) =~= date);
    let tail = d.push('-') + variant;
    assert(rest.skip(k + 1) =~= tail);
    assert forall|j: int| 0 <= j < d.len() implies tail[j] != '-' by {
        assert(crate::text::is_digit(d[j]));
    }
    crate::text::lemma_find_is(tail, '-', 0, d.len() as int);
    assert(tail.take(d.len() as int) =~= d);
    assert(tail.skip((d.len() + 1) as int) =~= variant);
}

spec fn falling(s: Seq<ArtifactView>) -> bool {
    forall|i: int, j: int|
        0 <= i < j < s.len() ==> (#[trigger] s[i]).build >= (#[trigger] s[j]).build
}

/// The newest come first, and no build twice.
pub open spec fn strictly_falling(s: Seq<ArtifactView>) -> bool {
    forall|i: int, j: int|
        0 <= i < j < s.len() ==> (#[trigger] s[i]).build > (#[trigger] s[j]).build
}

/// There is an artifact of that build.
pub open spec fn has_build(s: Seq<ArtifactView>, build: u32) -> bool {
    exists|j: int| 0 <= j < s.len() && (#[trigger] s[j]).build == build
}

proof fn lemma_falling(s: Seq<ArtifactView>)
    requires
        falling(s),
        s.len() > 0,
    ensures
        falling(s.drop_last()),
        s.len() > 1 ==> s.drop_last().last().build >= s.last().build,
{
    let short = s.drop_last();
    assert forall|i: int, j: int| 0 <= i < j < short.len() implies (#[trigger] short[i]).build >= (
    #[trigger] short[j]).build by {
        assert(short[i] == s[i] && short[j] == s[j]);
    }
    if s.len() > 1 {
        assert(s[s.len() - 2].build >= s[s.len() - 1].build);
    }
}

proof fn lemma_one_each(s: Seq<ArtifactView>)
    requires
        falling(s),
    ensures
        strictly_falling(one_each(s)),
        s.len() > 0 ==> one_each(s).len() > 0 && one_each(s).last().build == s.last().build,
    decreases s.len(),
{
    if s.len() > 0 {
        lemma_falling(s);
        lemma_one_each(s.drop_last());
        let init = one_each(s.drop_last());
        let out = one_each(s);
        assert forall|i: int, j: int| 0 <= i < j < out.len() implies (#[trigger] out[i]).build > (
        #[trigger] out[j]).build by {
            if j < init.len() {
                assert(out[i] == init[i] && out[j] == init[j]);
            } else {
                assert(out[i] == init[i]);
                if i < init.len() - 1 {
                    assert(init[i].build > init[init.len() - 1].build);
                }
            }
        }
    }
}

proof fn lemma_one_each_holds(s: Seq<ArtifactView>, a: ArtifactView)
    ensures
        one_each(s).contains(a) ==> s.contains(a),
        s.contains(a) ==> has_build(one_each(s), a.build),
    decreases s.len(),
{
    if s.len() > 0 {
        let short = s.drop_last();
        let init = one_each(short);
        let out = one_each(s);
        lemma_one_each_holds(short, a);
        assert(s[s.len() - 1] == s.last());
        if out.contains(a) {
            let i = out.index_of(a);
            if i < init.len() {
                assert(init[i] == a);
                assert(s[short.index_of(a)] == a);
            }
        }
        if s.contains(a) {
            let i = s.index_of(a);
            if i < short.len() {
                assert(short[i] == a);
                let j = choose|j: int| 0 <= j < init.len() && (#[trigger] init[j]).build == a.build;
                assert(out[j].build == a.build);
            } else {
                assert(out[out.len() - 1].build == a.build);
            }
        }
    }
}

/// The builds come newest first, each once, and every build that was found is
/// among them.
pub proof fn law_builds_come_newest_first(found: Seq<ArtifactView>)
    ensures
        strictly_falling(newest_first(found)),
        forall|a: ArtifactView| #[trigger]
            newest_first(found).contains(a) ==> found.contains(a),
        forall|a: ArtifactView| #[trigger]
            found.contains(a) ==> has_build(newest_first(found), a.build),
{
    let keys = build_keys(found);
    let s = sorted(found, keys);
    let order = crate::order::order_of(keys);
    crate::order::law_sorting_keeps_every_item(keys);
    crate::order::law_sorting_is_stable(keys);
    crate::order::lemma_sorted_contains(found, keys);
    assert forall|i: int, j: int| 0 <= i < j < s.len() implies (#[trigger] s[i]).build >= (
    #[trigger] s[j]).build by {
        let a = order[i];
        let b = order[j];
        assert(order.contains(a) && order.contains(b));
        assert(s[i] == found[a] && s[j] == found[b]);
        assert(crate::order::precedes(keys[a], keys[b]) || !crate::order::precedes(
            keys[b],
            keys[a],
        ));
        assert(!crate::text::before(Seq::<char>::empty(), Seq::<char>::empty()));
    }
    lemma_one_each(s);
    assert forall|a: ArtifactView| #[trigger] newest_first(found).contains(a) implies found.contains(
        a,
    ) by {
        lemma_one_each_holds(s, a);
    }
    assert forall|a: ArtifactView| #[trigger] found.contains(a) implies has_build(
        newest_first(found),
        a.build,
    ) by {
        assert(s.contains(a));
        lemma_one_each_holds(s, a);
    }
}

/// The search after it has been told of these pages, one after the other.
pub open spec fn searched(s: SearchView, pages: Seq<Seq<ArtifactView>>) -> SearchView
    decreases pages.len(),
{
    if pages.len() == 0 {
        s
    } else {
        searched(s, pages.drop_last()).told(pages.last())
    }
}

proof fn lemma_first_wanted(batch: Seq<ArtifactView>, build: u32, variant: Seq<char>, from: int)
    requires
        0 <= from <= batch.len(),
    ensures
        first_wanted(batch, build, variant, from) matches Some(a) ==> is_wanted(a, build, variant)
            && batch.contains(a),
        first_wanted(batch, build, variant, from) is None ==> forall|i: int|
            from <= i < batch.len() ==> !is_wanted(#[trigger] batch[i], build, variant),
    decreases batch.len() - from,
{
    if from < batch.len() && !is_wanted(batch[from], build, variant) {
        lemma_first_wanted(batch, build, variant, from + 1);
    }
}

proof fn lemma_searched(s: SearchView, pages: Seq<Seq<ArtifactView>>, n: int)
    requires
        s.page == 1,
        !s.over,
        s.found is None,
        0 <= n <= pages.len(),
        n < s.pages,
        forall|i: int| 0 <= i < n ==> (#[trigger] pages[i]).len() > 0 && !goes_past(pages[i], s.build),
    ensures
        ({
            let now = searched(s, pages.take(n));
            &&& now.build == s.build
            &&& now.variant == s.variant
            &&& now.pages == s.pages
            &&& now.over ==> (now.found matches Some(a) && is_wanted(a, s.build, s.variant))
            &&& !now.over ==> now.page == n + 1 && now.found is None
        }),
    decreases n,
{
    if n > 0 {
        lemma_searched(s, pages, n - 1);
        assert(pages.take(n).drop_last() =~= pages.take(n - 1));
        assert(pages.take(n).last() == pages[n - 1]);
        lemma_first_wanted(pages[n - 1], s.build, s.variant, 0);
    } else {
        assert(pages.take(0) =~= Seq::empty());
    }
}

/// A build that stands on one of the pages looked through is found: pages come
/// back newest first, so no page before it holds anything older.
pub proof fn law_a_listed_build_is_found(
    s: SearchView,
    pages: Seq<Seq<ArtifactView>>,
    n: int,
    at: int,
)
    requires
        s.page == 1,
        !s.over,
        s.found is None,
        0 <= n < pages.len(),
        n < s.pages,
        0 <= at < pages[n].len(),
        is_wanted(pages[n][at], s.build, s.variant),
        forall|i: int| 0 <= i < n ==> (#[trigger] pages[i]).len() > 0 && !goes_past(pages[i], s.build),
    ensures
        ({
            let end = searched(s, pages.take(n + 1));
            end.over && (end.found matches Some(a) && is_wanted(a, s.build, s.variant))
        }),
{
    lemma_searched(s, pages, n);
    assert(pages.take(n + 1).drop_last() =~= pages.take(n));
    assert(pages.take(n + 1).last() == pages[n]);
    lemma_first_wanted(pages[n], s.build, s.variant, 0);
    assert(is_wanted(pages[n][at], s.build, s.variant));
}

/// The name of a daily pack is `GTNH-daily-`, a date, `+`, a number, `-`, a variant and
/// `.zip`, and the variant starts with `mmcprism`. Such a name gives its date, number
/// and variant, and no other name gives anything.
pub proof fn law_which_names_are_daily_packs(
    name: Seq<char>,
    date: Seq<char>,
    number: Seq<char>,
    variant: Seq<char>,
)
    ensures
        !date.contains('+') && !number.contains('-') && name == "GTNH-daily-"@ + (date + seq!['+']
            + (number + seq!['-'] + variant)) + ".zip"@ ==> match parse_nat(
            number,
            u32::MAX as nat,
        ) {
            Some(build) => if "mmcprism"@.is_prefix_of(variant) {
                name_parts(name) == Some((date, build as u32, variant))
            } else {
                name_parts(name) is None
            },
            None => name_parts(name) is None,
        },
        name_parts(name) is Some ==> exists|d: Seq<char>, n: Seq<char>, v: Seq<char>|
            !d.contains('+') && !n.contains('-') && name == #[trigger] pack_name(d, n, v),
{
    let head = "GTNH-daily-"@;
    let zip = ".zip"@;
    let tail = number + seq!['-'] + variant;
    let rest = date + seq!['+'] + tail;
    if !date.contains('+') && !number.contains('-') && name == head + rest + zip {
        crate::text::law_stripping(head + rest, zip);
        crate::text::law_stripping(rest, head);
        crate::text::law_cutting_at_the_first(date, '+', tail);
        crate::text::law_cutting_at_the_first(number, '-', variant);
    }
    if name_parts(name) is Some {
        crate::text::law_stripping(name, zip);
        let stem = strip_suffix(name, zip)->0;
        crate::text::law_stripping(stem, head);
        let inner = strip_prefix(stem, head)->0;
        let (d, back) = split_once(inner, '+')->0;
        let (n, v) = split_once(back, '-')->0;
        lemma_cut(inner, '+');
        lemma_cut(back, '-');
        assert(name == pack_name(d, n, v));
    }
}

/// A name of that shape.
pub open spec fn pack_name(
    date: Seq<char>,
    number: Seq<char>,
    variant: Seq<char>,
) -> Seq<char> {
    "GTNH-daily-"@ + (date + seq!['+'] + (number + seq!['-'] + variant)) + ".zip"@
}

proof fn lemma_cut(s: Seq<char>, c: char)
    requires
        split_once(s, c) is Some,
    ensures
        s == (split_once(s, c)->0).0 + seq![c] + (split_once(s, c)->0).1,
        !(split_once(s, c)->0).0.contains(c),
{
    crate::text::lemma_find(s, c, 0);
    let k = crate::text::find(s, c);
    assert(s =~= s.take(k) + seq![c] + s.skip(k + 1));
    if s.take(k).contains(c) {
        let j = s.take(k).index_of(c);
        assert(s[j] == c);
    }
}

/// A page keeps every pack that has not expired, with the numbers that GitHub gives,
/// and nothing else; where no run is given its number is zero.
pub proof fn law_a_page_keeps_every_living_pack(
    raw: Seq<RawArtifact>,
    k: int,
    date: Seq<char>,
    build: u32,
    variant: Seq<char>,
)
    requires
        0 <= k < raw.len(),
        name_parts(raw[k].name@) == Some((date, build, variant)),
    ensures
        ({
            let a = ArtifactView {
                id: raw[k].id,
                run_id: if raw[k].run_id is Some {
                    raw[k].run_id->0
                } else {
                    0
                },
                name: raw[k].name@,
                size: raw[k].size_in_bytes,
                date,
                build,
                variant,
            };
            &&& !raw[k].expired ==> page_of(raw).contains(a)
        }),
        forall|a: ArtifactView| #[trigger]
            page_of(raw).contains(a) ==> exists|r: RawArtifact| #[trigger]
                raw.contains(r) && !r.expired && r.id == a.id && r.name@ == a.name && name_parts(
                    a.name,
                ) == Some((a.date, a.build, a.variant)),
{
    let f = |a: RawArtifact| usable(a);
    crate::mods::lemma_collected(raw, f);
    assert(page_of(raw) == collected(raw, f));
    assert(raw.contains(raw[k]));
    assert(f(raw[k]) == usable(raw[k]));
    assert forall|a: ArtifactView| #[trigger] page_of(raw).contains(a) implies exists|
        r: RawArtifact,
    | #[trigger]
        raw.contains(r) && !r.expired && r.id == a.id && r.name@ == a.name && name_parts(a.name)
            == Some((a.date, a.build, a.variant)) by {
        let r = choose|r: RawArtifact| raw.contains(r) && #[trigger] f(r) == Some(a);
        assert(usable(r) == Some(a));
        assert(raw.contains(r) && !r.expired);
    }
}

/// The walk after it has been told of these pages, one after the other.
pub open spec fn walked(s: RecentView, pages: Seq<Seq<ArtifactView>>) -> RecentView
    decreases pages.len(),
{
    if pages.len() == 0 {
        s
    } else {
        walked(s, pages.drop_last()).told(pages.last())
    }
}

/// The walk gathers the artifacts of its variant from page after page, all of them,
/// until it has seen as many pages as it was asked for; an empty page behind the first
/// ends it at once and takes nothing away.
pub proof fn law_the_walk_gathers_every_page(s: RecentView, pages: Seq<Seq<ArtifactView>>)
    requires
        s.page == 1,
        !s.over,
        s.found.len() == 0,
        pages.len() <= s.pages,
        forall|i: int| 0 < i < pages.len() ==> (#[trigger] pages[i]).len() > 0,
    ensures
        ({
            let now = walked(s, pages);
            &&& now.variant == s.variant && now.pages == s.pages
            &&& now.over <==> pages.len() > 0 && pages.len() == s.pages
            &&& !now.over ==> now.page == pages.len() + 1
            &&& forall|a: ArtifactView| #[trigger]
                now.found.contains(a) <==> a.variant == s.variant && exists|i: int|
                    0 <= i < pages.len() && #[trigger] pages[i].contains(a)
            &&& !now.over && pages.len() > 0 ==> now.told(Seq::empty()).over && now.told(
                Seq::empty(),
            ).found == now.found
        }),
    decreases pages.len(),
{
    if pages.len() > 0 {
        let short = pages.drop_last();
        assert forall|i: int| 0 < i < short.len() implies (#[trigger] short[i]).len() > 0 by {
            assert(short[i] == pages[i]);
        }
        law_the_walk_gathers_every_page(s, short);
        let then = walked(s, short);
        let now = walked(s, pages);
        let batch = pages.last();
        assert(batch == pages[pages.len() - 1]);
        let f = |a: ArtifactView| if_variant(a, s.variant);
        crate::mods::lemma_collected(batch, f);
        let more = of_variant(batch, s.variant);
        assert(more == collected(batch, f));
        assert(now.found == then.found + more);
        assert forall|a: ArtifactView| #[trigger] now.found.contains(a) <==> a.variant == s.variant
            && exists|i: int| 0 <= i < pages.len() && #[trigger] pages[i].contains(a) by {
            if now.found.contains(a) {
                let i = now.found.index_of(a);
                if i < then.found.len() {
                    assert(then.found[i] == a);
                    assert(then.found.contains(a));
                    let j = choose|j: int| 0 <= j < short.len() && #[trigger] short[j].contains(a);
                    assert(pages[j].contains(a));
                } else {
                    assert(more[i - then.found.len()] == a);
                    assert(more.contains(a));
                    let b = choose|b: ArtifactView| batch.contains(b) && #[trigger] f(b) == Some(a);
                    assert(if_variant(b, s.variant) == Some(a));
                    assert(pages[pages.len() - 1].contains(a));
                }
            }
            if a.variant == s.variant && exists|i: int|
                0 <= i < pages.len() && #[trigger] pages[i].contains(a) {
                let i = choose|i: int| 0 <= i < pages.len() && #[trigger] pages[i].contains(a);
                if i < short.len() {
                    assert(short[i].contains(a));
                    assert(then.found.contains(a));
                    assert(now.found[then.found.index_of(a)] == a);
                } else {
                    assert(f(a) == Some(a));
                    assert(more.contains(a));
                    assert(now.found[then.found.len() + more.index_of(a)] == a);
                }
            }
        }
    }
}

/// A search takes the first artifact of its build and variant on the page. It ends
/// there, at an empty page, at a page with an older build on it, and at the last page;
/// else it goes on with the next.
pub proof fn law_when_a_search_ends(s: SearchView, batch: Seq<ArtifactView>)
    requires
        !s.over,
    ensures
        ({
            let now = s.told(batch);
            let there = exists|i: int|
                0 <= i < batch.len() && (#[trigger] batch[i]).build == s.build && batch[i].variant
                    == s.variant;
            let older = exists|i: int| 0 <= i < batch.len() && (#[trigger] batch[i]).build < s.build;
            &&& now.over <==> there || older || batch.len() == 0 || s.page >= s.pages
            &&& now.over ==> (now.found is Some <==> there)
            &&& !now.over ==> now.page == s.page + 1 && now.found == s.found
            &&& forall|i: int|
                0 <= i < batch.len() && (#[trigger] batch[i]).build == s.build && batch[i].variant
                    == s.variant && (forall|j: int|
                    0 <= j < i ==> (#[trigger] batch[j]).build != s.build || batch[j].variant
                        != s.variant) ==> now.found == Some(batch[i])
        }),
{
    let now = s.told(batch);
    lemma_first_wanted(batch, s.build, s.variant, 0);
    assert(goes_past(batch, s.build) <==> exists|i: int|
        0 <= i < batch.len() && (#[trigger] batch[i]).build < s.build);
    if first_wanted(batch, s.build, s.variant, 0) is Some {
        let a = first_wanted(batch, s.build, s.variant, 0)->0;
        let i = batch.index_of(a);
        assert(batch[i].build == s.build && batch[i].variant == s.variant);
    } else {
        assert forall|i: int| 0 <= i < batch.len() implies (#[trigger] batch[i]).build != s.build
            || batch[i].variant != s.variant by {
            assert(!is_wanted(batch[i], s.build, s.variant));
        }
    }
    assert forall|i: int|
        0 <= i < batch.len() && (#[trigger] batch[i]).build == s.build && batch[i].variant
            == s.variant && (forall|j: int|
            0 <= j < i ==> (#[trigger] batch[j]).build != s.build || batch[j].variant
                != s.variant) implies now.found == Some(batch[i]) by {
        lemma_first_is(batch, s.build, s.variant, 0, i);
    }
}

proof fn lemma_first_is(
    batch: Seq<ArtifactView>,
    build: u32,
    variant: Seq<char>,
    from: int,
    at: int,
)
    requires
        0 <= from <= at < batch.len(),
        batch[at].build == build && batch[at].variant == variant,
        forall|j: int|
            from <= j < at ==> (#[trigger] batch[j]).build != build || batch[j].variant != variant,
    ensures
        first_wanted(batch, build, variant, from) == Some(batch[at]),
    decreases at - from,
{
    if from < at {
        assert(batch[from].build != build || batch[from].variant != variant);
        lemma_first_is(batch, build, variant, from + 1, at);
    }
}

proof fn lemma_first_of_each_stays(s: Seq<ArtifactView>, p: int)
    requires
        falling(s),
        0 <= p < s.len(),
        forall|q: int| 0 <= q < p ==> (#[trigger] s[q]).build != s[p].build,
    ensures
        one_each(s).contains(s[p]),
    decreases s.len(),
{
    let short = s.drop_last();
    let init = one_each(short);
    let out = one_each(s);
    lemma_falling(s);
    if p < short.len() {
        assert forall|q: int| 0 <= q < p implies (#[trigger] short[q]).build != short[p].build by {
            assert(short[q] == s[q]);
        }
        lemma_first_of_each_stays(short, p);
        assert(init.contains(s[p]));
        assert(out[init.index_of(s[p])] == s[p]);
    } else {
        lemma_one_each(short);
        if init.len() > 0 {
            let a = init.last();
            assert(init.contains(a));
            lemma_one_each_holds(short, a);
            let q = short.index_of(a);
            assert(s[q] == a);
            assert(s[q].build != s[p].build);
        }
        assert(out[out.len() - 1] == s[p]);
    }
}

/// Of several artifacts of one build the one that was found first is listed.
pub proof fn law_the_first_of_a_build_is_listed(found: Seq<ArtifactView>, i: int)
    requires
        0 <= i < found.len(),
        forall|j: int| 0 <= j < i ==> (#[trigger] found[j]).build != found[i].build,
    ensures
        newest_first(found).contains(found[i]),
{
    let keys = build_keys(found);
    let s = sorted(found, keys);
    let order = crate::order::order_of(keys);
    crate::order::law_sorting_keeps_every_item(keys);
    crate::order::law_sorting_is_stable(keys);
    crate::textmap::law_order_is_total(Seq::empty(), Seq::empty());
    assert forall|p: int, q: int| 0 <= p < q < s.len() implies (#[trigger] s[p]).build >= (
    #[trigger] s[q]).build by {
        let a = order[p];
        let b = order[q];
        assert(order.contains(a) && order.contains(b));
        assert(s[p] == found[a] && s[q] == found[b]);
        assert(crate::order::precedes(keys[a], keys[b]) || !crate::order::precedes(
            keys[b],
            keys[a],
        ));
    }
    assert(order.contains(i));
    let p = order.index_of(i);
    assert(s[p] == found[i]);
    assert forall|q: int| 0 <= q < p implies (#[trigger] s[q]).build != s[p].build by {
        let a = order[q];
        assert(order.contains(a));
        assert(s[q] == found[a]);
        if s[q].build == s[p].build {
            assert(keys[a] == keys[i]);
            assert(a < i);
        }
    }
    lemma_first_of_each_stays(s, p);
}

proof fn lemma_unquoted(front: Seq<char>, token: Seq<char>, back: Seq<char>)
    requires
        forall|i: int| 0 <= i < front.len() ==> #[trigger] front[i] == '"',
        forall|i: int| 0 <= i < back.len() ==> #[trigger] back[i] == '"',
        token.len() > 0,
        token[0] != '"' && token.last() != '"',
    ensures
        unquoted(front + token + back) == token,
    decreases front.len() + back.len(),
{
    let s = front + token + back;
    if back.len() > 0 {
        assert(s.last() == back[back.len() - 1]);
        let less = back.drop_last();
        assert forall|i: int| 0 <= i < less.len() implies #[trigger] less[i] == '"' by {
            assert(less[i] == back[i]);
        }
        assert(s.drop_last() =~= front + token + less);
        lemma_unquoted(front, token, less);
    } else {
        assert(s =~= front + token);
        assert(s.last() == token.last());
        lemma_unquoted_front(front, token);
    }
}

proof fn lemma_unquoted_front(front: Seq<char>, token: Seq<char>)
    requires
        forall|i: int| 0 <= i < front.len() ==> #[trigger] front[i] == '"',
        token.len() > 0,
        token[0] != '"',
    ensures
        unquoted_front(front + token) == token,
    decreases front.len(),
{
    let s = front + token;
    if front.len() > 0 {
        assert(s[0] == front[0]);
        let less = front.skip(1);
        assert forall|i: int| 0 <= i < less.len() implies #[trigger] less[i] == '"' by {
            assert(less[i] == front[i + 1]);
        }
        assert(s.skip(1) =~= less + token);
        lemma_unquoted_front(less, token);
    } else {
        assert(s =~= token);
    }
}

/// A line `oauth_token: …` gives its token, whatever blanks and quotes stand round it.
pub proof fn law_how_a_token_is_read(
    front: Seq<char>,
    gap: Seq<char>,
    quotes: Seq<char>,
    token: Seq<char>,
    more: Seq<char>,
    back: Seq<char>,
)
    requires
        forall|i: int| 0 <= i < front.len() ==> crate::text::is_white(#[trigger] front[i]),
        forall|i: int| 0 <= i < gap.len() ==> crate::text::is_white(#[trigger] gap[i]),
        forall|i: int| 0 <= i < back.len() ==> crate::text::is_white(#[trigger] back[i]),
        forall|i: int| 0 <= i < quotes.len() ==> #[trigger] quotes[i] == '"',
        forall|i: int| 0 <= i < more.len() ==> #[trigger] more[i] == '"',
        token.len() > 0,
        token[0] != '"' && token.last() != '"',
        !crate::text::is_white(token[0]) && !crate::text::is_white(token.last()),
    ensures
        token_in_line(
            front + ("oauth_token:"@ + (gap + (quotes + token + more))) + back,
        ) == Some(token),
{
    let inner = quotes + token + more;
    let body = "oauth_token:"@ + (gap + inner);
    reveal_strlit("oauth_token:");
    crate::text::law_white_space('"');
    crate::text::law_white_space('o');
    assert(!crate::text::is_white(inner[0])) by {
        if quotes.len() > 0 {
            assert(inner[0] == quotes[0]);
        } else {
            assert(inner[0] == token[0]);
        }
    }
    assert(!crate::text::is_white(inner.last())) by {
        if more.len() > 0 {
            assert(inner.last() == more[more.len() - 1]);
        } else {
            assert(inner.last() == token.last());
        }
    }
    assert(body[0] == 'o');
    assert(body.last() == inner.last());
    crate::text::law_trimming(front, body, back);
    crate::text::law_stripping(gap + inner, "oauth_token:"@);
    let none: Seq<char> = Seq::empty();
    crate::text::law_trimming(gap, inner, none);
    assert(gap + inner + none =~= gap + inner);
    lemma_unquoted(quotes, token, more);
}

/// The first line of the file that gives a token decides, and a line without the word
/// gives none.
pub proof fn law_the_first_token_counts(all: Seq<Seq<char>>, i: int)
    requires
        0 <= i <= all.len(),
        forall|j: int| 0 <= j < i ==> token_in_line(#[trigger] all[j]) is None,
    ensures
        i < all.len() && token_in_line(all[i]) is Some ==> first_token(all, 0) == token_in_line(
            all[i],
        ),
        i == all.len() ==> first_token(all, 0) is None,
        forall|line: Seq<char>|
            !"oauth_token:"@.is_prefix_of(trim(line)) ==> #[trigger] token_in_line(line) is None,
{
    lemma_first_token(all, 0, i);
}

proof fn lemma_first_token(all: Seq<Seq<char>>, from: int, at: int)
    requires
        0 <= from <= at <= all.len(),
        forall|j: int| from <= j < at ==> token_in_line(#[trigger] all[j]) is None,
    ensures
        first_token(all, from) == first_token(all, at),
    decreases at - from,
{
    if from < at {
        assert(token_in_line(all[from]) is None);
        lemma_first_token(all, from + 1, at);
    }
}

/// Tokens are looked for in this order; all sources but the last hold nothing but the
/// token, with blanks round it.
pub proof fn law_where_tokens_are_looked_for(
    front: Seq<char>,
    token: Seq<char>,
    back: Seq<char>,
    n: int,
)
    requires
        forall|i: int| 0 <= i < front.len() ==> crate::text::is_white(#[trigger] front[i]),
        forall|i: int| 0 <= i < back.len() ==> crate::text::is_white(#[trigger] back[i]),
        token.len() > 0 ==> !crate::text::is_white(token[0]) && !crate::text::is_white(
            token.last(),
        ),
    ensures
        token_source(0) == TokenSource::GhVariable,
        token_source(1) == TokenSource::GithubVariable,
        token_source(2) == TokenSource::Cli,
        token_source(3) == TokenSource::Hosts,
        0 <= n < 3 && token.len() > 0 ==> token_from(token_source(n), front + token + back)
            == Some(token),
        0 <= n < 3 && token.len() == 0 ==> token_from(token_source(n), front + token + back) is None,
{
    crate::text::law_trimming(front, token, back);
}

/// What the replies of the download endpoint come to: a redirect gives its address, a
/// request that was turned down and one that was answered otherwise are told apart.
pub proof fn law_what_a_reply_comes_to(
    status: u16,
    location: Option<&str>,
    r: Result<String, ResolveError>,
)
    requires
        call_ensures(resolve_download_url, (status, location), r),
    ensures
        300 <= status <= 399 && location is Some ==> (r matches Ok(url) && url@ == location->0@),
        300 <= status <= 399 && location is None ==> r == Err::<String, ResolveError>(
            ResolveError::NoLocation,
        ),
        status == 401 || status == 403 ==> r == Err::<String, ResolveError>(
            ResolveError::Rejected(status),
        ),
        (status < 300 || status > 399) && status != 401 && status != 403 ==> r == Err::<
            String,
            ResolveError,
        >(ResolveError::NoRedirect(status)),
{
}

/// The addresses that are asked, with the number of the page or of the artifact.
pub proof fn law_which_addresses_are_asked(page: u32, id: u64, a: String, b: String)
    requires
        call_ensures(artifacts_url, (page,), a),
        call_ensures(download_url, (id,), b),
    ensures
        a@
            == "https://api.github.com/repos/GTNewHorizons/DreamAssemblerXXL/actions/artifacts?per_page=100&page="@
            + decimal(page as nat),
        b@ == "https://api.github.com/repos/GTNewHorizons/DreamAssemblerXXL/actions/artifacts/"@
            + decimal(id as nat) + "/zip"@,
{
}

/// A reply announces a length where it gives a number, and zero in every other case.
pub proof fn law_which_length_is_announced(header: Option<&str>, n: u64, r: u64)
    requires
        call_ensures(announced_length, (header,), r),
    ensures
        header is Some && header->0@ == decimal(n as nat) ==> r == n,
        header is None ==> r == 0,
        header is Some && parse_nat(header->0@, u64::MAX as nat) is None ==> r == 0,
{
    crate::text::lemma_parse_decimal(n as nat, u64::MAX as nat);
}

/// A token is used as it is unless it is blank.
pub proof fn law_blank_tokens_are_none(token: Option<String>, r: Option<String>)
    requires
        call_ensures(usable_token, (token,), r),
    ensures
        token is None ==> r is None,
        token matches Some(t) ==> (r is None <==> forall|i: int|
            0 <= i < t@.len() ==> crate::text::is_white(#[trigger] t@[i])),
        r is Some ==> r == token,
{
    if let Some(t) = token {
        let none: Seq<char> = Seq::empty();
        if forall|i: int| 0 <= i < t@.len() ==> crate::text::is_white(#[trigger] t@[i]) {
            crate::text::law_trimming(t@, none, none);
            assert(t@ + none + none =~= t@);
        } else {
            crate::text::lemma_blank_is_white(t@);
        }
    }
}

/// A build is called by its number and its date.
pub proof fn law_what_a_build_is_called(a: DailyArtifact, r: String)
    requires
        call_ensures(DailyArtifact::label, (&a,), r),
    ensures
        r@ == "daily "@ + decimal(a.build as nat) + " ("@ + a.date@ + ")"@,
{
}

/// What the name of an artifact gives, asked of the call itself.
pub proof fn law_what_reading_a_name_gives(
    id: u64,
    run_id: u64,
    name: &str,
    size: u64,
    r: Option<DailyArtifact>,
    date: Seq<char>,
    build: u32,
    variant: Seq<char>,
)
    requires
        call_ensures(DailyArtifact::parse, (id, run_id, name, size), r),
        !date.contains('+'),
    ensures
        name@ == pack_name(date, decimal(build as nat), "mmcprism"@ + variant) ==> (r matches Some(a)
            && a.id == id && a.run_id == run_id && a.name@ == name@ && a.size == size && a.date@
            == date && a.build == build && a.variant@ == "mmcprism"@ + variant),
        r is Some ==> exists|d: Seq<char>, n: Seq<char>, v: Seq<char>|
            !d.contains('+') && !n.contains('-') && name@ == #[trigger] pack_name(d, n, v),
{
    let number = decimal(build as nat);
    let whole = "mmcprism"@ + variant;
    law_which_names_are_daily_packs(name@, date, number, whole);
    crate::text::lemma_parse_decimal(build as nat, u32::MAX as nat);
    crate::text::lemma_decimal_reads_back(build as nat);
    if number.contains('-') {
        assert(crate::text::is_digit(number[number.index_of('-')]));
    }
    assert(whole.subrange(0, "mmcprism"@.len() as int) =~= "mmcprism"@);
}

/// What is said where no address for a download comes back.
pub proof fn law_what_a_refused_download_says(e: ResolveError, r: String)
    requires
        call_ensures(ResolveError::message, (e,), r),
    ensures
        e matches ResolveError::Rejected(status) ==> r@
            == "GitHub rejected the artifact request (HTTP "@ + decimal(status as nat)
            + "). Artifact downloads require a token with `repo` or `actions:read` scope."@,
        e matches ResolveError::NoRedirect(status) ==> r@
            == "expected a redirect to the artifact storage, got HTTP "@ + decimal(status as nat),
        e is NoLocation ==> r@ == "artifact redirect had no Location header"@,
{
}

/// The addresses lie in the repository that is named here.
pub proof fn law_addresses_name_the_repository(page: u32, id: u64, a: String, b: String)
    requires
        call_ensures(artifacts_url, (page,), a),
        call_ensures(download_url, (id,), b),
    ensures
        a@ == "https://api.github.com/repos/"@ + OWNER@ + "/"@ + REPO@
            + "/actions/artifacts?per_page=100&page="@ + decimal(page as nat),
        b@ == "https://api.github.com/repos/"@ + OWNER@ + "/"@ + REPO@ + "/actions/artifacts/"@
            + decimal(id as nat) + "/zip"@,
{
    reveal_strlit("https://api.github.com/repos/");
    reveal_strlit("GTNewHorizons");
    reveal_strlit("/");
    reveal_strlit("DreamAssemblerXXL");
    reveal_strlit("/actions/artifacts?per_page=100&page=");
    reveal_strlit("/actions/artifacts/");
    reveal_strlit(
        "https://api.github.com/repos/GTNewHorizons/DreamAssemblerXXL/actions/artifacts?per_page=100&page=",
    );
    reveal_strlit(
        "https://api.github.com/repos/GTNewHorizons/DreamAssemblerXXL/actions/artifacts/",
    );
    let front = "https://api.github.com/repos/"@ + OWNER@ + "/"@ + REPO@;
    assert(front + "/actions/artifacts?per_page=100&page="@
        =~= "https://api.github.com/repos/GTNewHorizons/DreamAssemblerXXL/actions/artifacts?per_page=100&page="@);
    assert(front + "/actions/artifacts/"@
        =~= "https://api.github.com/repos/GTNewHorizons/DreamAssemblerXXL/actions/artifacts/"@);
}

} // verus!
