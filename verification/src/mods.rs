//! Working out what happened to the mod list between two pack versions.
use vstd::prelude::*;
use vstd::string::*;

use crate::order::{sort_by_keys, sorted, SortKey};
use crate::text::{
    chars_of, ends_with, find, is_digit, join, joined, lemma_find, lemma_find_is, lowercase, pieces,
    same, split, strip_prefix, strip_suffix, texts, without_prefix, without_suffix,
};
use crate::textmap::{entry_keys, latest, TextMap};

verus! {

/// Prism turns a mod off by appending this to its filename.
pub const DISABLED_SUFFIX: &'static str = ".disabled";

// ---------------------------------------------------------------------------
// Names
// ---------------------------------------------------------------------------

/// The name a mod file has when it is enabled.
pub open spec fn enabled_name(filename: Seq<char>) -> Seq<char> {
    match strip_suffix(filename, DISABLED_SUFFIX@) {
        Some(base) => base,
        None => filename,
    }
}

pub open spec fn is_enabled(filename: Seq<char>) -> bool {
    !DISABLED_SUFFIX@.is_suffix_of(filename)
}

/// The last component of a path.
pub open spec fn name_of(rel: Seq<char>) -> Seq<char> {
    split(rel, '/').last()
}

/// The file name without the extension of a mod.
pub open spec fn mod_stem(name: Seq<char>) -> Seq<char> {
    match strip_suffix(name, ".jar"@) {
        Some(stem) => stem,
        None => match strip_suffix(name, ".litemod"@) {
            Some(stem) => stem,
            None => name,
        },
    }
}

pub open spec fn version_char(c: char) -> bool {
    is_digit(c) || c == '.' || c == '_'
}

pub open spec fn without_v(token: Seq<char>) -> Seq<char> {
    match strip_prefix(token, "v"@) {
        Some(rest) => rest,
        None => token,
    }
}

/// An optional `v`, then a digit, then digits, dots and underscores.
pub open spec fn is_version(token: Seq<char>) -> bool {
    let t = without_v(token);
    &&& t.len() > 0
    &&& is_digit(t[0])
    &&& forall|i: int| 0 <= i < t.len() ==> version_char(#[trigger] t[i])
}

/// The first token at or behind `from` that is a version; the number of tokens
/// if there is none.
pub open spec fn version_at(parts: Seq<Seq<char>>, from: int) -> int
    decreases parts.len() - from,
{
    if from >= parts.len() {
        parts.len() as int
    } else if is_version(parts[from]) {
        from
    } else {
        version_at(parts, from + 1)
    }
}

/// What a mod is matched by: its lower-case name up to the first version behind
/// a dash.
pub open spec fn key_of_name(filename: Seq<char>) -> Seq<char> {
    let parts = split(mod_stem(enabled_name(filename)), '-');
    lowercase(join(parts.take(version_at(parts, 1)), "-"@))
}

/// Split a mod filename into the name it has when enabled, and whether it is.
pub fn split_disabled(filename: &str) -> (r: (&str, bool))
    ensures
        r.0@ == enabled_name(filename@),
        r.1 == is_enabled(filename@),
{
    if ends_with(filename, DISABLED_SUFFIX) {
        let n = filename.unicode_len();
        let k = DISABLED_SUFFIX.unicode_len();
        assert(filename@.subrange(0, n - k) =~= filename@.take(n - k));
        (filename.substring_char(0, n - k), false)
    } else {
        (filename, true)
    }
}

fn looks_like_version(token: &str) -> (r: bool)
    ensures
        r == is_version(token@),
{
    let rest = match without_prefix(token, "v") {
        Some(rest) => rest,
        None => token.to_owned(),
    };
    let t = chars_of(rest.as_str());
    if t.len() == 0 || !('0' <= t[0] && t[0] <= '9') {
        return false;
    }
    let mut i: usize = 0;
    while i < t.len()
        invariant
            t@ == without_v(token@),
            i <= t.len(),
            forall|j: int| 0 <= j < i ==> version_char(#[trigger] t@[j]),
        decreases t.len() - i,
    {
        let c: char = t[i];
        if !(('0' <= c && c <= '9') || c == '.' || c == '_') {
            assert(!version_char(t@[i as int]));
            return false;
        }
        i += 1;
    }
    true
}

/// Strip the version from a jar filename so the same mod matches across builds.
///
/// `angelica-2.1.56.jar` and `angelica-2.2.0.jar` both reduce to `angelica`.
/// The exact stem does not matter as long as it is stable between versions, so
/// the rule is simply: cut at the first dash-separated token that is a number.
pub fn mod_key(filename: &str) -> (r: String)
    ensures
        r@ == key_of_name(filename@),
{
    let (name, _) = split_disabled(filename);
    let stem = match without_suffix(name, ".jar") {
        Some(stem) => stem,
        None => match without_suffix(name, ".litemod") {
            Some(stem) => stem,
            None => name.to_owned(),
        },
    };
    let parts = pieces(stem.as_str(), '-');
    let ghost all = texts(parts@);
    let mut kept: Vec<String> = Vec::new();
    let mut i: usize = 0;
    proof {
        assert(all == split(mod_stem(enabled_name(filename@)), '-'));
        assert(all.len() > 0);
        assert(texts(kept@) =~= all.take(0));
    }
    while i < parts.len() && (i == 0 || !looks_like_version(parts[i].as_str()))
        invariant
            all == texts(parts@),
            all.len() > 0,
            i <= parts.len(),
            texts(kept@) == all.take(i as int),
            i > 0 ==> version_at(all, 1) == version_at(all, i as int),
        decreases parts.len() - i,
    {
        assert(all[i as int] == parts@[i as int]@);
        let ghost k0 = kept@;
        kept.push(parts[i].clone());
        assert(texts(kept@) =~= texts(k0).push(all[i as int]));
        assert(all.take(i + 1) =~= all.take(i as int).push(all[i as int]));
        i += 1;
    }
    proof {
        if i < parts.len() {
            assert(all[i as int] == parts@[i as int]@);
        }
        assert(version_at(all, 1) == i);
    }
    joined(&kept, "-").as_str().to_lowercase()
}

fn file_name(rel: &str) -> (r: String)
    ensures
        r@ == name_of(rel@),
{
    let parts = pieces(rel, '/');
    assert(texts(parts@).len() > 0);
    assert(texts(parts@).last() == parts@.last()@);
    parts[parts.len() - 1].clone()
}

// ---------------------------------------------------------------------------
// Types
// ---------------------------------------------------------------------------

#[derive(Debug, Clone, Copy, PartialEq, Eq, Structural)]
pub enum ModKind {
    /// Shipped in the version you are on, gone from the new one.
    RemovedByPack,
    /// Never part of the pack: something you added yourself.
    UserAdded,
}

#[derive(Debug, Clone)]
pub struct ModDecision {
    /// Path relative to `.minecraft`, e.g. `mods/angelica-2.1.56.jar`.
    pub rel: String,
    pub file: String,
    pub kind: ModKind,
    /// Whether to carry this jar into the new instance.
    pub keep: bool,
    pub size: u64,
}

/// A mod the new pack ships in a different on/off state than you had it.
#[derive(Debug, Clone)]
pub struct ModStateChange {
    /// Path of the file as the new pack ships it, relative to `.minecraft`.
    pub rel: String,
    /// Filename without any `.disabled` suffix, for display.
    pub file: String,
    /// What the old instance had it set to, which is what wins.
    pub enable: bool,
}

#[derive(Debug, Clone)]
pub struct ModPlan {
    /// Jars needing a yes/no from the user.
    pub decisions: Vec<ModDecision>,
    /// Mods the new pack updated in place, as `(old file, new file)`.
    pub updated: Vec<(String, String)>,
    /// Jars only the new pack has.
    pub added: Vec<String>,
    /// Jars that carry across unchanged.
    pub unchanged: usize,
    /// Mods to switch back to the state you had them in.
    pub state_changes: Vec<ModStateChange>,
}

/// A decision as texts.
pub struct DecisionView {
    pub rel: Seq<char>,
    pub file: Seq<char>,
    pub kind: ModKind,
    pub keep: bool,
    pub size: u64,
}

/// A change of state as texts.
pub struct StateChangeView {
    pub rel: Seq<char>,
    pub file: Seq<char>,
    pub enable: bool,
}

impl View for ModDecision {
    type V = DecisionView;

    open spec fn view(&self) -> DecisionView {
        DecisionView {
            rel: self.rel@,
            file: self.file@,
            kind: self.kind,
            keep: self.keep,
            size: self.size,
        }
    }
}

impl View for ModStateChange {
    type V = StateChangeView;

    open spec fn view(&self) -> StateChangeView {
        StateChangeView { rel: self.rel@, file: self.file@, enable: self.enable }
    }
}

pub open spec fn decision_views(s: Seq<ModDecision>) -> Seq<DecisionView> {
    s.map_values(|d: ModDecision| d@)
}

pub open spec fn change_views(s: Seq<ModStateChange>) -> Seq<StateChangeView> {
    s.map_values(|c: ModStateChange| c@)
}

pub open spec fn pair_views(s: Seq<(String, String)>) -> Seq<(Seq<char>, Seq<char>)> {
    s.map_values(|p: (String, String)| (p.0@, p.1@))
}

/// A mod plan as texts.
pub struct ModPlanView {
    pub decisions: Seq<DecisionView>,
    pub updated: Seq<(Seq<char>, Seq<char>)>,
    pub added: Seq<Seq<char>>,
    pub unchanged: int,
    pub state_changes: Seq<StateChangeView>,
}

impl View for ModPlan {
    type V = ModPlanView;

    open spec fn view(&self) -> ModPlanView {
        ModPlanView {
            decisions: decision_views(self.decisions@),
            updated: pair_views(self.updated@),
            added: texts(self.added@),
            unchanged: self.unchanged as int,
            state_changes: change_views(self.state_changes@),
        }
    }
}

impl Default for ModPlan {
    fn default() -> (r: Self)
        ensures
            r@ == (ModPlanView {
                decisions: Seq::empty(),
                updated: Seq::empty(),
                added: Seq::empty(),
                unchanged: 0,
                state_changes: Seq::empty(),
            }),
    {
        let r = ModPlan {
            decisions: Vec::new(),
            updated: Vec::new(),
            added: Vec::new(),
            unchanged: 0,
            state_changes: Vec::new(),
        };
        proof {
            assert(r@.decisions =~= Seq::empty());
            assert(r@.updated =~= Seq::empty());
            assert(r@.added =~= Seq::empty());
            assert(r@.state_changes =~= Seq::empty());
        }
        r
    }
}

// ---------------------------------------------------------------------------
// Counting
// ---------------------------------------------------------------------------

/// How many of the items satisfy `p`.
pub open spec fn count<T>(s: Seq<T>, p: spec_fn(T) -> bool) -> nat
    decreases s.len(),
{
    if s.len() == 0 {
        0
    } else {
        count(s.drop_last(), p) + if p(s.last()) {
            1nat
        } else {
            0nat
        }
    }
}

pub proof fn lemma_count_sum<T>(a: Seq<T>, b: Seq<T>, p: spec_fn(T) -> bool)
    ensures
        count(a + b, p) == count(a, p) + count(b, p),
    decreases b.len(),
{
    if b.len() == 0 {
        assert(a + b =~= a);
    } else {
        lemma_count_sum(a, b.drop_last(), p);
        assert((a + b).drop_last() =~= a + b.drop_last());
    }
}

pub proof fn lemma_count_all<T>(s: Seq<T>, p: spec_fn(T) -> bool)
    requires
        forall|i: int| 0 <= i < s.len() ==> p(#[trigger] s[i]),
    ensures
        count(s, p) == s.len(),
    decreases s.len(),
{
    if s.len() > 0 {
        assert(p(s[s.len() - 1]));
        assert forall|i: int| 0 <= i < s.len() - 1 implies p(#[trigger] s.drop_last()[i]) by {
            assert(s.drop_last()[i] == s[i]);
        }
        lemma_count_all(s.drop_last(), p);
    }
}

pub proof fn lemma_count_none<T>(s: Seq<T>, p: spec_fn(T) -> bool)
    requires
        forall|i: int| 0 <= i < s.len() ==> !p(#[trigger] s[i]),
    ensures
        count(s, p) == 0,
    decreases s.len(),
{
    if s.len() > 0 {
        assert(!p(s[s.len() - 1]));
        assert forall|i: int| 0 <= i < s.len() - 1 implies !p(#[trigger] s.drop_last()[i]) by {
            assert(s.drop_last()[i] == s[i]);
        }
        lemma_count_none(s.drop_last(), p);
    }
}

impl ModPlan {
    fn switched(&self, enable: bool) -> (r: usize)
        ensures
            r == count(self.state_changes@, |c: ModStateChange| c.enable == enable),
    {
        let mut n: usize = 0;
        let mut i: usize = 0;
        let ghost p = |c: ModStateChange| c.enable == enable;
        assert(self.state_changes@.take(0) =~= Seq::empty());
        while i < self.state_changes.len()
            invariant
                p == (|c: ModStateChange| c.enable == enable),
                n <= i <= self.state_changes.len(),
                n == count(self.state_changes@.take(i as int), p),
            decreases self.state_changes.len() - i,
        {
            assert(self.state_changes@.take(i + 1).drop_last() =~= self.state_changes@.take(
                i as int,
            ));
            if self.state_changes[i].enable == enable {
                n += 1;
            }
            i += 1;
        }
        assert(self.state_changes@.take(i as int) =~= self.state_changes@);
        n
    }

    fn of_kind(&self, kind: ModKind) -> (r: usize)
        ensures
            r == count(self.decisions@, |d: ModDecision| d.kind == kind),
    {
        let mut n: usize = 0;
        let mut i: usize = 0;
        let ghost p = |d: ModDecision| d.kind == kind;
        assert(self.decisions@.take(0) =~= Seq::empty());
        while i < self.decisions.len()
            invariant
                p == (|d: ModDecision| d.kind == kind),
                n <= i <= self.decisions.len(),
                n == count(self.decisions@.take(i as int), p),
            decreases self.decisions.len() - i,
        {
            assert(self.decisions@.take(i + 1).drop_last() =~= self.decisions@.take(i as int));
            if self.decisions[i].kind == kind {
                n += 1;
            }
            i += 1;
        }
        assert(self.decisions@.take(i as int) =~= self.decisions@);
        n
    }

    pub fn disabled_count(&self) -> (r: usize)
        ensures
            r == count(self.state_changes@, |c: ModStateChange| c.enable == false),
    {
        self.switched(false)
    }

    pub fn reenabled_count(&self) -> (r: usize)
        ensures
            r == count(self.state_changes@, |c: ModStateChange| c.enable == true),
    {
        self.switched(true)
    }

    pub fn removed_count(&self) -> (r: usize)
        ensures
            r == count(self.decisions@, |d: ModDecision| d.kind == ModKind::RemovedByPack),
    {
        self.of_kind(ModKind::RemovedByPack)
    }

    pub fn extra_count(&self) -> (r: usize)
        ensures
            r == count(self.decisions@, |d: ModDecision| d.kind == ModKind::UserAdded),
    {
        self.of_kind(ModKind::UserAdded)
    }
}

// ---------------------------------------------------------------------------
// Comparing the three lists
// ---------------------------------------------------------------------------

/// What a mod file is matched by.
pub open spec fn key_of(rel: Seq<char>) -> Seq<char> {
    key_of_name(name_of(rel))
}

pub open spec fn has_key(files: Seq<Seq<char>>, key: Seq<char>) -> bool {
    exists|i: int| 0 <= i < files.len() && key_of(#[trigger] files[i]) == key
}

/// The files of one mod.
pub open spec fn of_mod(files: Seq<Seq<char>>, key: Seq<char>) -> Seq<Seq<char>>
    decreases files.len(),
{
    if files.len() == 0 {
        Seq::empty()
    } else {
        let init = of_mod(files.drop_last(), key);
        if key_of(files.last()) == key {
            init.push(files.last())
        } else {
            init
        }
    }
}

pub open spec fn sort_keys(files: Seq<Seq<char>>) -> Seq<(u64, Seq<char>)> {
    files.map_values(|f: Seq<char>| (0u64, key_of(f)))
}

/// The files ordered by what they are matched by, those of one mod in the order
/// in which they came.
pub open spec fn by_mod(files: Seq<Seq<char>>) -> Seq<Seq<char>> {
    sorted(files, sort_keys(files))
}

/// Whether the file with this name is on: the last one of that name decides.
pub open spec fn name_state(files: Seq<Seq<char>>, name: Seq<char>) -> Option<bool>
    decreases files.len(),
{
    if files.len() == 0 {
        None
    } else if enabled_name(name_of(files.last())) == name {
        Some(is_enabled(name_of(files.last())))
    } else {
        name_state(files.drop_last(), name)
    }
}

/// All names among the files are in the state `on`.
pub open spec fn all_are(files: Seq<Seq<char>>, on: bool) -> bool {
    forall|i: int|
        0 <= i < files.len() ==> name_state(files, enabled_name(name_of(#[trigger] files[i])))
            == Some(on)
}

/// The state of a mod as a whole, where its files agree.
pub open spec fn mod_state(files: Seq<Seq<char>>) -> Option<bool> {
    if files.len() > 0 && all_are(files, true) {
        Some(true)
    } else if files.len() > 0 && all_are(files, false) {
        Some(false)
    } else {
        None
    }
}

/// The state the old instance asks for: that of the same file, else that of the
/// mod as a whole.
pub open spec fn wanted_state(ours: Seq<Seq<char>>, name: Seq<char>) -> Option<bool> {
    match name_state(ours, name) {
        Some(on) => Some(on),
        None => mod_state(ours),
    }
}

/// The files of the old instance that are the same mod as `rel`.
pub open spec fn matches(ours: Seq<Seq<char>>, rel: Seq<char>) -> Seq<Seq<char>> {
    of_mod(ours, key_of(rel))
}

/// A file of the new pack whose mod the old instance does not have.
pub open spec fn as_added(ours: Seq<Seq<char>>, rel: Seq<char>) -> Option<Seq<char>> {
    if matches(ours, rel).len() == 0 {
        Some(rel)
    } else {
        None
    }
}

/// A file of the new pack that the old instance has under the same name.
pub open spec fn as_unchanged(ours: Seq<Seq<char>>, rel: Seq<char>) -> bool {
    name_state(matches(ours, rel), enabled_name(name_of(rel))) is Some
}

/// A file of the new pack that takes the place of one of the same mod.
pub open spec fn as_updated(ours: Seq<Seq<char>>, rel: Seq<char>) -> Option<
    (Seq<char>, Seq<char>),
> {
    if matches(ours, rel).len() > 0 && !as_unchanged(ours, rel) {
        Some((enabled_name(name_of(matches(ours, rel)[0])), enabled_name(name_of(rel))))
    } else {
        None
    }
}

/// A file of the new pack to switch to the state of the old instance.
pub open spec fn as_switched(ours: Seq<Seq<char>>, rel: Seq<char>) -> Option<StateChangeView> {
    match wanted_state(matches(ours, rel), enabled_name(name_of(rel))) {
        Some(on) => if on != is_enabled(name_of(rel)) {
            Some(StateChangeView { rel, file: enabled_name(name_of(rel)), enable: on })
        } else {
            None
        },
        None => None,
    }
}

pub open spec fn kind_of(base: Seq<Seq<char>>, rel: Seq<char>) -> ModKind {
    if has_key(base, key_of(rel)) {
        ModKind::RemovedByPack
    } else {
        ModKind::UserAdded
    }
}

/// The size of a file in a list.
pub open spec fn size_in(files: Seq<(Seq<char>, u64)>, rel: Seq<char>) -> u64 {
    match latest(files, rel) {
        Some(size) => size,
        None => 0,
    }
}

/// A file of the old instance whose mod the new pack does not have. The pack
/// dropping a mod is deliberate; your own additions are kept.
pub open spec fn as_decision(
    base: Seq<Seq<char>>,
    ours: Seq<(Seq<char>, u64)>,
    theirs: Seq<Seq<char>>,
    rel: Seq<char>,
) -> Option<DecisionView> {
    if has_key(theirs, key_of(rel)) {
        None
    } else {
        Some(
            DecisionView {
                rel,
                file: name_of(rel),
                kind: kind_of(base, rel),
                keep: kind_of(base, rel) == ModKind::UserAdded,
                size: size_in(ours, rel),
            },
        )
    }
}

/// What `f` gives for the items, where it gives something.
pub open spec fn collected<A, B>(s: Seq<A>, f: spec_fn(A) -> Option<B>) -> Seq<B>
    decreases s.len(),
{
    if s.len() == 0 {
        Seq::empty()
    } else {
        match f(s.last()) {
            Some(b) => collected(s.drop_last(), f).push(b),
            None => collected(s.drop_last(), f),
        }
    }
}

pub open spec fn added_of(ours: Seq<Seq<char>>, theirs: Seq<Seq<char>>) -> Seq<Seq<char>> {
    collected(by_mod(theirs), |f: Seq<char>| as_added(ours, f))
}

pub open spec fn updated_of(ours: Seq<Seq<char>>, theirs: Seq<Seq<char>>) -> Seq<
    (Seq<char>, Seq<char>),
> {
    collected(by_mod(theirs), |f: Seq<char>| as_updated(ours, f))
}

pub open spec fn unchanged_of(ours: Seq<Seq<char>>, theirs: Seq<Seq<char>>) -> nat {
    count(by_mod(theirs), |f: Seq<char>| as_unchanged(ours, f))
}

pub open spec fn switched_of(ours: Seq<Seq<char>>, theirs: Seq<Seq<char>>) -> Seq<
    StateChangeView,
> {
    collected(by_mod(theirs), |f: Seq<char>| as_switched(ours, f))
}

pub open spec fn decided_of(
    base: Seq<Seq<char>>,
    ours: Seq<(Seq<char>, u64)>,
    theirs: Seq<Seq<char>>,
) -> Seq<DecisionView> {
    collected(by_mod(entry_keys(ours)), |f: Seq<char>| as_decision(base, ours, theirs, f))
}

pub open spec fn change_keys(s: Seq<StateChangeView>) -> Seq<(u64, Seq<char>)> {
    s.map_values(|c: StateChangeView| (0u64, lowercase(c.file)))
}

/// Removals come before your own mods, each sorted by name.
pub open spec fn decision_keys(s: Seq<DecisionView>) -> Seq<(u64, Seq<char>)> {
    s.map_values(
        |d: DecisionView|
            (
                if d.kind == ModKind::UserAdded {
                    1u64
                } else {
                    0u64
                },
                lowercase(d.file),
            ),
    )
}

/// The plan for the mod lists of the version you are on, of your instance and of
/// the new pack.
pub open spec fn plan_of(
    base: Seq<Seq<char>>,
    ours: Seq<(Seq<char>, u64)>,
    theirs: Seq<Seq<char>>,
) -> ModPlanView {
    let changes = switched_of(entry_keys(ours), theirs);
    let decisions = decided_of(base, ours, theirs);
    ModPlanView {
        decisions: sorted(decisions, decision_keys(decisions)),
        updated: updated_of(entry_keys(ours), theirs),
        added: added_of(entry_keys(ours), theirs),
        unchanged: unchanged_of(entry_keys(ours), theirs) as int,
        state_changes: sorted(changes, change_keys(changes)),
    }
}

/// The paths of a list with what each is matched by.
struct Keyed {
    files: Vec<String>,
    keys: Vec<String>,
}

impl Keyed {
    spec fn wf(self) -> bool {
        &&& self.files.len() == self.keys.len()
        &&& forall|i: int|
            0 <= i < self.files.len() ==> #[trigger] self.keys@[i]@ == key_of(self.files@[i]@)
    }

    spec fn paths(self) -> Seq<Seq<char>> {
        texts(self.files@)
    }

    fn of(map: &TextMap<u64>) -> (r: Self)
        ensures
            r.wf(),
            r.paths() == map.keys(),
    {
        let mut files: Vec<String> = Vec::new();
        let mut keys: Vec<String> = Vec::new();
        let mut i: usize = 0;
        while i < map.entries.len()
            invariant
                i <= map.entries.len(),
                files.len() == i,
                keys.len() == i,
                forall|j: int| 0 <= j < i ==> #[trigger] files@[j]@ == map.keys()[j],
                forall|j: int| 0 <= j < i ==> #[trigger] keys@[j]@ == key_of(files@[j]@),
            decreases map.entries.len() - i,
        {
            let file = map.entries[i].0.clone();
            let name = file_name(file.as_str());
            keys.push(mod_key(name.as_str()));
            files.push(file);
            i += 1;
        }
        assert(texts(files@) =~= map.keys());
        Keyed { files, keys }
    }

    /// The files of one mod.
    fn select(&self, key: &str) -> (r: Vec<String>)
        requires
            self.wf(),
        ensures
            texts(r@) == of_mod(self.paths(), key@),
    {
        let mut out: Vec<String> = Vec::new();
        let mut i: usize = 0;
        let ghost all = self.paths();
        proof {
            assert(all.take(0) =~= Seq::empty());
            assert(texts(out@) =~= Seq::empty());
        }
        while i < self.files.len()
            invariant
                self.wf(),
                all == self.paths(),
                i <= self.files.len(),
                texts(out@) == of_mod(all.take(i as int), key@),
            decreases self.files.len() - i,
        {
            let ghost o0 = out@;
            proof {
                assert(all.take(i + 1).drop_last() =~= all.take(i as int));
                assert(all.take(i + 1).last() == self.files@[i as int]@);
                assert(self.keys@[i as int]@ == key_of(self.files@[i as int]@));
            }
            if same(self.keys[i].as_str(), key) {
                out.push(self.files[i].clone());
                assert(texts(out@) =~= texts(o0).push(self.files@[i as int]@));
            }
            i += 1;
        }
        assert(all.take(i as int) =~= all);
        out
    }

    fn contains(&self, key: &str) -> (r: bool)
        requires
            self.wf(),
        ensures
            r == has_key(self.paths(), key@),
    {
        let mut i: usize = 0;
        while i < self.files.len()
            invariant
                self.wf(),
                i <= self.files.len(),
                forall|j: int| 0 <= j < i ==> key_of(#[trigger] self.paths()[j]) != key@,
            decreases self.files.len() - i,
        {
            assert(self.keys@[i as int]@ == key_of(self.files@[i as int]@));
            if same(self.keys[i].as_str(), key) {
                assert(key_of(self.paths()[i as int]) == key@);
                return true;
            }
            i += 1;
        }
        false
    }

    /// The files ordered by what they are matched by.
    fn grouped(&self) -> (r: Vec<String>)
        requires
            self.wf(),
        ensures
            texts(r@) == by_mod(self.paths()),
    {
        let mut files: Vec<String> = Vec::new();
        let mut keys: Vec<SortKey> = Vec::new();
        let mut i: usize = 0;
        while i < self.files.len()
            invariant
                self.wf(),
                i <= self.files.len(),
                files.len() == i,
                keys.len() == i,
                forall|j: int| 0 <= j < i ==> #[trigger] files@[j] == self.files@[j],
                forall|j: int|
                    0 <= j < i ==> #[trigger] keys@[j]@ == (0u64, key_of(self.files@[j]@)),
            decreases self.files.len() - i,
        {
            files.push(self.files[i].clone());
            assert(self.keys@[i as int]@ == key_of(self.files@[i as int]@));
            keys.push(SortKey { number: 0, text: self.keys[i].clone() });
            i += 1;
        }
        proof {
            assert(files@ =~= self.files@);
            assert(crate::order::key_views(keys@) =~= sort_keys(self.paths()));
            crate::order::lemma_sorted_map(files@, sort_keys(self.paths()), |s: String| s@);
        }
        sort_by_keys(files, keys)
    }
}

fn state_of(files: &Vec<String>, name: &str) -> (r: Option<bool>)
    ensures
        r == name_state(texts(files@), name@),
{
    let ghost all = texts(files@);
    let mut i: usize = files.len();
    assert(all.take(i as int) =~= all);
    while i > 0
        invariant
            all == texts(files@),
            i <= files.len(),
            name_state(all, name@) == name_state(all.take(i as int), name@),
        decreases i,
    {
        let file = file_name(files[i - 1].as_str());
        let (plain, on) = split_disabled(file.as_str());
        proof {
            assert(all.take(i as int).last() == files@[i - 1]@);
            assert(all.take(i as int).drop_last() =~= all.take(i - 1));
        }
        if same(plain, name) {
            return Some(on);
        }
        i -= 1;
    }
    None
}

fn agree(files: &Vec<String>, on: bool) -> (r: bool)
    ensures
        r == all_are(texts(files@), on),
{
    let mut i: usize = 0;
    let ghost all = texts(files@);
    while i < files.len()
        invariant
            all == texts(files@),
            i <= files.len(),
            forall|j: int|
                0 <= j < i ==> name_state(all, enabled_name(name_of(#[trigger] all[j]))) == Some(on),
        decreases files.len() - i,
    {
        let file = file_name(files[i].as_str());
        let (plain, _) = split_disabled(file.as_str());
        assert(all[i as int] == files@[i as int]@);
        match state_of(files, plain) {
            Some(state) if state == on => {},
            _ => {
                return false;
            },
        }
        i += 1;
    }
    true
}

fn whole_state(files: &Vec<String>) -> (r: Option<bool>)
    ensures
        r == mod_state(texts(files@)),
{
    assert(texts(files@).len() == files.len());
    if files.len() == 0 {
        None
    } else if agree(files, true) {
        Some(true)
    } else if agree(files, false) {
        Some(false)
    } else {
        None
    }
}

/// Sort by lower-case name.
fn in_name_order(changes: Vec<ModStateChange>) -> (r: Vec<ModStateChange>)
    ensures
        change_views(r@) == sorted(
            change_views(changes@),
            change_keys(change_views(changes@)),
        ),
{
    let ghost views = change_views(changes@);
    let ghost keys_view = change_keys(views);
    let mut keys: Vec<SortKey> = Vec::new();
    let mut i: usize = 0;
    while i < changes.len()
        invariant
            views == change_views(changes@),
            keys_view == change_keys(views),
            i <= changes.len(),
            keys.len() == i,
            forall|j: int| 0 <= j < i ==> #[trigger] keys@[j]@ == keys_view[j],
        decreases changes.len() - i,
    {
        keys.push(SortKey { number: 0, text: changes[i].file.as_str().to_lowercase() });
        i += 1;
    }
    proof {
        assert(crate::order::key_views(keys@) =~= keys_view);
        crate::order::lemma_sorted_map(changes@, keys_view, |c: ModStateChange| c@);
    }
    sort_by_keys(changes, keys)
}

/// Removals first, then by lower-case name.
fn in_decision_order(decisions: Vec<ModDecision>) -> (r: Vec<ModDecision>)
    ensures
        decision_views(r@) == sorted(
            decision_views(decisions@),
            decision_keys(decision_views(decisions@)),
        ),
{
    let ghost views = decision_views(decisions@);
    let ghost keys_view = decision_keys(views);
    let mut keys: Vec<SortKey> = Vec::new();
    let mut i: usize = 0;
    while i < decisions.len()
        invariant
            views == decision_views(decisions@),
            keys_view == decision_keys(views),
            i <= decisions.len(),
            keys.len() == i,
            forall|j: int| 0 <= j < i ==> #[trigger] keys@[j]@ == keys_view[j],
        decreases decisions.len() - i,
    {
        let number: u64 = if decisions[i].kind == ModKind::UserAdded {
            1
        } else {
            0
        };
        keys.push(SortKey { number, text: decisions[i].file.as_str().to_lowercase() });
        i += 1;
    }
    proof {
        assert(crate::order::key_views(keys@) =~= keys_view);
        crate::order::lemma_sorted_map(decisions@, keys_view, |d: ModDecision| d@);
    }
    sort_by_keys(decisions, keys)
}

/// Compare the three mod lists. `base` is what the version you are on shipped;
/// pass an empty map when that is unknown: everything unmatched then reads as
/// "you added this", which is the safer default because it keeps files.
pub fn plan(base: &TextMap<u64>, ours: &TextMap<u64>, theirs: &TextMap<u64>) -> (r: ModPlan)
    requires
        ours.wf(),
    ensures
        r@ == plan_of(base.keys(), ours.pairs(), theirs.keys()),
{
    let base_mods = Keyed::of(base);
    let our_mods = Keyed::of(ours);
    let their_mods = Keyed::of(theirs);
    let mut out = ModPlan::default();

    let ghost os = ours.keys();
    let ghost list = ours.pairs();
    proof {
        crate::textmap::lemma_pairs(*ours);
    }
    let ghost ts = theirs.keys();
    let ghost added_f = |f: Seq<char>| as_added(os, f);
    let ghost updated_f = |f: Seq<char>| as_updated(os, f);
    let ghost unchanged_f = |f: Seq<char>| as_unchanged(os, f);
    let ghost switched_f = |f: Seq<char>| as_switched(os, f);

    let their_files = their_mods.grouped();
    let ghost walk = texts(their_files@);
    let mut i: usize = 0;
    proof {
        assert(walk.take(0) =~= Seq::empty());
        assert(out@.decisions.len() == out.decisions@.len());
    }
    while i < their_files.len()
        invariant
            our_mods.wf(),
            our_mods.paths() == os,
            walk == texts(their_files@),
            walk == by_mod(ts),
            added_f == (|f: Seq<char>| as_added(os, f)),
            updated_f == (|f: Seq<char>| as_updated(os, f)),
            unchanged_f == (|f: Seq<char>| as_unchanged(os, f)),
            switched_f == (|f: Seq<char>| as_switched(os, f)),
            i <= their_files.len(),
            out.unchanged <= i,
            texts(out.added@) == collected(walk.take(i as int), added_f),
            pair_views(out.updated@) == collected(walk.take(i as int), updated_f),
            out.unchanged == count(walk.take(i as int), unchanged_f),
            change_views(out.state_changes@) == collected(walk.take(i as int), switched_f),
            out.decisions@.len() == 0,
        decreases their_files.len() - i,
    {
        let rel = their_files[i].clone();
        let file = file_name(rel.as_str());
        let (name, on) = split_disabled(file.as_str());
        let key = mod_key(file.as_str());
        let our_files = our_mods.select(key.as_str());
        let ghost mine = matches(os, rel@);
        let ghost before = out@;
        proof {
            assert(walk.take(i + 1).drop_last() =~= walk.take(i as int));
            assert(walk.take(i + 1).last() == rel@);
            assert(texts(our_files@) == mine);
        }
        if our_files.len() == 0 {
            out.added.push(rel);
            proof {
                assert(texts(out.added@) =~= before.added.push(rel@));
                assert(mine.len() == 0);
            }
        } else {
            let known = state_of(&our_files, name);
            let wanted = match known {
                Some(state) => Some(state),
                None => whole_state(&our_files),
            };
            if let Some(enable) = wanted {
                if enable != on {
                    out.state_changes.push(
                        ModStateChange { rel: rel.clone(), file: name.to_owned(), enable },
                    );
                    assert(change_views(out.state_changes@) =~= before.state_changes.push(
                        as_switched(os, rel@)->0,
                    ));
                }
            }
            if known.is_some() {
                out.unchanged += 1;
            } else {
                let from_file = file_name(our_files[0].as_str());
                assert(mine[0] == our_files@[0]@);
                let (from_name, _) = split_disabled(from_file.as_str());
                out.updated.push((from_name.to_owned(), name.to_owned()));
                assert(pair_views(out.updated@) =~= before.updated.push(as_updated(os, rel@)->0));
            }
        }
        i += 1;
    }
    proof {
        assert(walk.take(i as int) =~= walk);
    }

    let ghost bs = base.keys();
    let ghost decided_f = |f: Seq<char>| as_decision(bs, list, ts, f);
    let our_files = our_mods.grouped();
    let ghost own = texts(our_files@);
    let mut k: usize = 0;
    proof {
        assert(own.take(0) =~= Seq::empty());
        assert(decision_views(out.decisions@) =~= Seq::empty());
        crate::order::law_sorting_keeps_every_item(sort_keys(os));
    }
    while k < our_files.len()
        invariant
            ours.wf(),
            base_mods.wf(),
            base_mods.paths() == bs,
            their_mods.wf(),
            their_mods.paths() == ts,
            os == ours.keys(),
            list == ours.pairs(),
            own == texts(our_files@),
            own == by_mod(os),
            forall|j: int|
                crate::order::order_of(sort_keys(os)).contains(j) <==> 0 <= j < sort_keys(os).len(),
            decided_f == (|f: Seq<char>| as_decision(bs, list, ts, f)),
            k <= our_files.len(),
            decision_views(out.decisions@) == collected(own.take(k as int), decided_f),
            texts(out.added@) == added_of(os, ts),
            pair_views(out.updated@) == updated_of(os, ts),
            out.unchanged == unchanged_of(os, ts),
            change_views(out.state_changes@) == switched_of(os, ts),
        decreases our_files.len() - k,
    {
        let rel = our_files[k].clone();
        let file = file_name(rel.as_str());
        let key = mod_key(file.as_str());
        let ghost before = out@;
        proof {
            assert(own.take(k + 1).drop_last() =~= own.take(k as int));
            assert(own.take(k + 1).last() == rel@);
            let order = crate::order::order_of(sort_keys(os));
            assert(own.len() == order.len() && own.len() == our_files.len());
            assert(order.contains(order[k as int]));
            assert(own[k as int] == rel@);
            assert(os.contains(rel@)) by {
                assert(os[order[k as int]] == rel@);
            }
        }
        if !their_mods.contains(key.as_str()) {
            let kind = if base_mods.contains(key.as_str()) {
                ModKind::RemovedByPack
            } else {
                ModKind::UserAdded
            };
            proof {
                crate::textmap::lemma_pairs(*ours);
                assert(latest(list, rel@) == ours.lookup(rel@));
            }
            let size: u64 = match ours.get(rel.as_str()) {
                Some(size) => *size,
                None => 0,
            };
            out.decisions.push(
                ModDecision { rel, file, kind, keep: kind == ModKind::UserAdded, size },
            );
            assert(decision_views(out.decisions@) =~= before.decisions.push(
                as_decision(bs, list, ts, own[k as int])->0,
            ));
        }
        k += 1;
    }
    proof {
        assert(own.take(k as int) =~= own);
    }
    ModPlan {
        decisions: in_decision_order(out.decisions),
        updated: out.updated,
        added: out.added,
        unchanged: out.unchanged,
        state_changes: in_name_order(out.state_changes),
    }
}

// ---------------------------------------------------------------------------
// Laws
// ---------------------------------------------------------------------------

/// What is collected comes from the list, and what the list gives is collected.
pub proof fn lemma_collected<A, B>(s: Seq<A>, f: spec_fn(A) -> Option<B>)
    ensures
        forall|b: B|
            #![trigger collected(s, f).contains(b)]
            collected(s, f).contains(b) <==> exists|a: A| s.contains(a) && #[trigger] f(a) == Some(b),
    decreases s.len(),
{
    if s.len() > 0 {
        let init = s.drop_last();
        lemma_collected(init, f);
        assert forall|b: B|
            collected(s, f).contains(b) <==> exists|a: A|
                s.contains(a) && #[trigger] f(a) == Some(b) by {
            let out = collected(s, f);
            let short = collected(init, f);
            if out.contains(b) {
                let i = out.index_of(b);
                if f(s.last()) is Some && i == out.len() - 1 {
                    assert(s[s.len() - 1] == s.last());
                    assert(s.contains(s.last()) && f(s.last()) == Some(b));
                } else {
                    assert(short[i] == b);
                    assert(short.contains(b));
                    let a = choose|a: A| init.contains(a) && #[trigger] f(a) == Some(b);
                    assert(s[init.index_of(a)] == a);
                    assert(s.contains(a) && f(a) == Some(b));
                }
            }
            if exists|a: A| s.contains(a) && #[trigger] f(a) == Some(b) {
                let a = choose|a: A| s.contains(a) && #[trigger] f(a) == Some(b);
                let i = s.index_of(a);
                if i < init.len() {
                    assert(init[i] == a);
                    assert(short.contains(b));
                    let k = short.index_of(b);
                    assert(out[k] == b);
                } else {
                    assert(out[out.len() - 1] == b);
                }
            }
        }
    }
}

proof fn lemma_by_mod(files: Seq<Seq<char>>)
    ensures
        by_mod(files).len() == files.len(),
        forall|f: Seq<char>| by_mod(files).contains(f) <==> files.contains(f),
{
    crate::order::lemma_sorted_contains(files, sort_keys(files));
}

pub proof fn lemma_split_concat(a: Seq<char>, b: Seq<char>, c: char)
    ensures
        split(a + seq![c] + b, c) == split(a, c) + split(b, c),
    decreases a.len(),
{
    let s = a + seq![c] + b;
    let i = find(a, c);
    lemma_find(a, c, 0);
    if i < a.len() {
        assert forall|j: int| 0 <= j < i implies s[j] != c by {
            assert(s[j] == a[j]);
        }
        assert(s[i] == a[i]);
        lemma_find_is(s, c, 0, i);
        let rest = a.skip(i + 1);
        assert(s.take(i) =~= a.take(i));
        assert(s.skip(i + 1) =~= rest + seq![c] + b);
        lemma_split_concat(rest, b, c);
        assert(split(s, c) =~= split(a, c) + split(b, c));
    } else {
        let n = a.len() as int;
        assert forall|j: int| 0 <= j < n implies s[j] != c by {
            assert(s[j] == a[j]);
        }
        assert(s[n] == c);
        lemma_find_is(s, c, 0, n);
        assert(s.take(n) =~= a);
        assert(s.skip(n + 1) =~= b);
        assert(split(a, c) =~= seq![a]);
    }
}

proof fn lemma_version_has_no_dash(token: Seq<char>)
    requires
        is_version(token),
    ensures
        split(token, '-') == seq![token],
{
    reveal_strlit("v");
    let t = without_v(token);
    assert forall|j: int| 0 <= j < token.len() implies token[j] != '-' by {
        if t.len() == token.len() {
            assert(t =~= token);
            assert(version_char(t[j]));
        } else if j > 0 {
            assert(t[j - 1] == token[j]);
            assert(version_char(t[j - 1]));
        } else {
            assert("v"@.is_prefix_of(token));
            assert(token.subrange(0, 1)[0] == token[0]);
        }
    }
    lemma_find_is(token, '-', 0, token.len() as int);
}

/// The first version of a longer list is that of its front, or what stands behind
/// the front.
proof fn lemma_version_at(front: Seq<Seq<char>>, all: Seq<Seq<char>>, from: int)
    requires
        0 <= from <= front.len() < all.len(),
        front =~= all.take(front.len() as int),
        is_version(all[front.len() as int]),
    ensures
        version_at(all, from) == version_at(front, from),
        from <= version_at(front, from) <= front.len(),
    decreases front.len() - from,
{
    if from < front.len() {
        assert(front[from] == all[from]);
        lemma_version_at(front, all, from + 1);
    }
}

/// What may stand behind the version in the name of a mod: nothing, or more words
/// behind a dash.
pub open spec fn is_tail(tail: Seq<char>) -> bool {
    tail.len() == 0 || tail[0] == '-'
}

pub open spec fn is_mod_ending(ending: Seq<char>) -> bool {
    ending == ".jar"@ || ending == ".litemod"@
}

/// The key of what stands in front of a version.
pub open spec fn key_of_front(front: Seq<char>) -> Seq<char> {
    let parts = split(front, '-');
    lowercase(join(parts.take(version_at(parts, 1)), "-"@))
}

/// A mod is matched by what stands in front of its version, whatever the version
/// is and whatever follows it, and whether it is on or off.
pub proof fn law_the_key_ignores_version_and_state(
    front: Seq<char>,
    version: Seq<char>,
    tail: Seq<char>,
    ending: Seq<char>,
)
    requires
        is_version(version),
        is_tail(tail),
        is_mod_ending(ending),
    ensures
        ({
            let file = front + "-"@ + version + tail + ending;
            &&& key_of_name(file) == key_of_front(front)
            &&& key_of_name(file + ".disabled"@) == key_of_front(front)
        }),
{
    reveal_strlit("-");
    reveal_strlit(".jar");
    reveal_strlit(".litemod");
    reveal_strlit(".disabled");
    let stem = front + "-"@ + version + tail;
    let file = stem + ending;
    let off = file + ".disabled"@;
    assert(mod_stem(file) == stem) by {
        assert(file.take(file.len() - ending.len()) =~= stem);
        assert(ending.is_suffix_of(file)) by {
            assert(file.subrange(file.len() - ending.len(), file.len() as int) =~= ending);
        }
        if ending == ".litemod"@ && ".jar"@.is_suffix_of(file) {
            assert(".jar"@[3] == file.subrange(file.len() - 4, file.len() as int)[3]);
            assert(file.last() == ending[7]);
        }
    }
    assert(enabled_name(file) == file) by {
        if ".disabled"@.is_suffix_of(file) {
            assert(".disabled"@[8] == file.subrange(file.len() - 9, file.len() as int)[8]);
            assert(file.last() == ending.last());
            assert(".disabled"@[7] == file.subrange(file.len() - 9, file.len() as int)[7]);
            assert(file[file.len() - 2] == ending[ending.len() - 2]);
        }
    }
    assert(enabled_name(off) == file) by {
        assert(off.subrange(off.len() - 9, off.len() as int) =~= ".disabled"@);
        assert(off.take(off.len() - 9) =~= file);
    }
    let parts = split(front, '-');
    let all = split(stem, '-');
    assert(all.len() > parts.len() && parts =~= all.take(parts.len() as int) && all[parts.len() as int]
        == version) by {
        assert("-"@ =~= seq!['-']);
        assert(stem =~= front + seq!['-'] + (version + tail));
        lemma_split_concat(front, version + tail, '-');
        lemma_version_has_no_dash(version);
        if tail.len() == 0 {
            assert(version + tail =~= version);
        } else {
            let more = tail.skip(1);
            assert(version + tail =~= version + seq!['-'] + more);
            lemma_split_concat(version, more, '-');
        }
        assert(split(version + tail, '-')[0] == version);
    }
    assert(parts.len() > 0);
    lemma_version_at(parts, all, 1);
    assert(all.take(version_at(all, 1)) =~= parts.take(version_at(parts, 1)));
}

/// What a decision can be: it is about a file of the instance whose mod the new
/// pack does not have, it tells the pack's removals from your own mods, and only
/// your own are kept to begin with.
pub proof fn law_decisions_tell_removals_from_your_own(
    base: Seq<Seq<char>>,
    ours: Seq<(Seq<char>, u64)>,
    theirs: Seq<Seq<char>>,
    d: DecisionView,
)
    requires
        plan_of(base, ours, theirs).decisions.contains(d),
    ensures
        entry_keys(ours).contains(d.rel),
        !has_key(theirs, key_of(d.rel)),
        d.file == name_of(d.rel),
        d.size == size_in(ours, d.rel),
        d.kind == ModKind::RemovedByPack <==> has_key(base, key_of(d.rel)),
        d.keep <==> d.kind == ModKind::UserAdded,
{
    let f = |f: Seq<char>| as_decision(base, ours, theirs, f);
    let plain = decided_of(base, ours, theirs);
    crate::order::lemma_sorted_contains(plain, decision_keys(plain));
    lemma_collected(by_mod(entry_keys(ours)), f);
    assert(plain == collected(by_mod(entry_keys(ours)), f));
    lemma_by_mod(entry_keys(ours));
    assert(plain.contains(d));
    let a = choose|a: Seq<char>| by_mod(entry_keys(ours)).contains(a) && #[trigger] f(a) == Some(d);
    assert(f(a) == as_decision(base, ours, theirs, a));
}

/// No mod of the instance disappears unasked: either the new pack has the same
/// mod, or there is a decision about the file.
pub proof fn law_no_mod_disappears_unasked(
    base: Seq<Seq<char>>,
    ours: Seq<(Seq<char>, u64)>,
    theirs: Seq<Seq<char>>,
    rel: Seq<char>,
)
    requires
        entry_keys(ours).contains(rel),
        !has_key(theirs, key_of(rel)),
    ensures
        plan_of(base, ours, theirs).decisions.contains(
            as_decision(base, ours, theirs, rel)->0,
        ),
        as_decision(base, ours, theirs, rel)->0.rel == rel,
{
    let f = |f: Seq<char>| as_decision(base, ours, theirs, f);
    let plain = decided_of(base, ours, theirs);
    crate::order::lemma_sorted_contains(plain, decision_keys(plain));
    lemma_collected(by_mod(entry_keys(ours)), f);
    assert(plain == collected(by_mod(entry_keys(ours)), f));
    lemma_by_mod(entry_keys(ours));
    assert(by_mod(entry_keys(ours)).contains(rel));
    assert(f(rel) == Some(as_decision(base, ours, theirs, rel)->0));
    assert(plain.contains(as_decision(base, ours, theirs, rel)->0));
}

/// When nothing is known of the version you are on, every unmatched mod reads as
/// your own and is kept.
pub proof fn law_without_a_base_everything_is_kept(
    ours: Seq<(Seq<char>, u64)>,
    theirs: Seq<Seq<char>>,
    d: DecisionView,
)
    requires
        plan_of(Seq::empty(), ours, theirs).decisions.contains(d),
    ensures
        d.kind == ModKind::UserAdded,
        d.keep,
{
    law_decisions_tell_removals_from_your_own(Seq::empty(), ours, theirs, d);
}

proof fn lemma_name_state(files: Seq<Seq<char>>, name: Seq<char>)
    ensures
        name_state(files, name) is Some <==> exists|i: int|
            0 <= i < files.len() && enabled_name(name_of(#[trigger] files[i])) == name,
    decreases files.len(),
{
    if files.len() > 0 {
        let init = files.drop_last();
        lemma_name_state(init, name);
        if enabled_name(name_of(files.last())) == name {
            assert(enabled_name(name_of(files[files.len() - 1])) == name);
        }
        if name_state(init, name) is Some {
            let i = choose|i: int|
                0 <= i < init.len() && enabled_name(name_of(#[trigger] init[i])) == name;
            assert(files[i] == init[i]);
        }
        if exists|i: int|
            0 <= i < files.len() && enabled_name(name_of(#[trigger] files[i])) == name {
            let i = choose|i: int|
                0 <= i < files.len() && enabled_name(name_of(#[trigger] files[i])) == name;
            if i < init.len() {
                assert(init[i] == files[i]);
            }
        }
    }
}

/// Your on/off state wins: the file that the new pack ships in the other state than
/// the old instance asks for is switched. The old instance asks for the state of
/// the same file; where it has no file of that name, for the state of the mod, if
/// all its files agree.
pub proof fn law_your_on_off_state_wins(
    base: Seq<Seq<char>>,
    ours: Seq<(Seq<char>, u64)>,
    theirs: Seq<Seq<char>>,
    rel: Seq<char>,
    on: bool,
)
    requires
        theirs.contains(rel),
        is_enabled(name_of(rel)) != on,
    ensures
        ({
            let mine = matches(entry_keys(ours), rel);
            let change = StateChangeView { rel, file: enabled_name(name_of(rel)), enable: on };
            &&& wanted_state(mine, enabled_name(name_of(rel))) == Some(on) ==> plan_of(
                base,
                ours,
                theirs,
            ).state_changes.contains(change)
            &&& mine.len() > 0 && all_are(mine, on) ==> plan_of(
                base,
                ours,
                theirs,
            ).state_changes.contains(change)
        }),
{
    let os = entry_keys(ours);
    let mine = matches(os, rel);
    let name = enabled_name(name_of(rel));
    if mine.len() > 0 && all_are(mine, on) {
        lemma_name_state(mine, name);
        if name_state(mine, name) is Some {
            let i = choose|i: int|
                0 <= i < mine.len() && enabled_name(name_of(#[trigger] mine[i])) == name;
            assert(name_state(mine, enabled_name(name_of(mine[i]))) == Some(on));
        } else {
            assert(name_state(mine, enabled_name(name_of(mine[0]))) == Some(on));
            assert(mod_state(mine) == Some(on));
        }
        assert(wanted_state(mine, name) == Some(on));
    }
    if wanted_state(mine, name) == Some(on) {
        let f = |f: Seq<char>| as_switched(os, f);
        let plain = switched_of(os, theirs);
        crate::order::lemma_sorted_contains(plain, change_keys(plain));
        lemma_collected(by_mod(theirs), f);
        assert(plain == collected(by_mod(theirs), f));
        lemma_by_mod(theirs);
        assert(by_mod(theirs).contains(rel));
        assert(f(rel) == Some(StateChangeView { rel, file: name, enable: on }));
        assert(plain.contains(StateChangeView { rel, file: name, enable: on }));
    }
}

/// A file of the new pack is switched only where its state differs from the one
/// the old instance asks for.
pub proof fn law_matching_states_need_no_change(
    base: Seq<Seq<char>>,
    ours: Seq<(Seq<char>, u64)>,
    theirs: Seq<Seq<char>>,
    c: StateChangeView,
)
    requires
        plan_of(base, ours, theirs).state_changes.contains(c),
    ensures
        theirs.contains(c.rel),
        c.file == enabled_name(name_of(c.rel)),
        c.enable != is_enabled(name_of(c.rel)),
        wanted_state(matches(entry_keys(ours), c.rel), c.file) == Some(c.enable),
{
    let os = entry_keys(ours);
    let f = |f: Seq<char>| as_switched(os, f);
    let plain = switched_of(os, theirs);
    crate::order::lemma_sorted_contains(plain, change_keys(plain));
    lemma_collected(by_mod(theirs), f);
    assert(plain == collected(by_mod(theirs), f));
    lemma_by_mod(theirs);
    assert(plain.contains(c));
    let a = choose|a: Seq<char>| by_mod(theirs).contains(a) && #[trigger] f(a) == Some(c);
    assert(f(a) == as_switched(os, a));
}

proof fn lemma_counted(ours: Seq<Seq<char>>, walk: Seq<Seq<char>>)
    ensures
        collected(walk, |f: Seq<char>| as_added(ours, f)).len() + collected(
            walk,
            |f: Seq<char>| as_updated(ours, f),
        ).len() + count(walk, |f: Seq<char>| as_unchanged(ours, f)) == walk.len(),
    decreases walk.len(),
{
    if walk.len() > 0 {
        lemma_counted(ours, walk.drop_last());
        let mine = matches(ours, walk.last());
        if mine.len() == 0 {
            lemma_name_state(mine, enabled_name(name_of(walk.last())));
        }
    }
}

/// Every mod file of the new pack is added, updated or unchanged, and only one
/// of these.
pub proof fn law_every_pack_mod_is_counted_once(
    base: Seq<Seq<char>>,
    ours: Seq<(Seq<char>, u64)>,
    theirs: Seq<Seq<char>>,
)
    ensures
        ({
            let p = plan_of(base, ours, theirs);
            p.added.len() + p.updated.len() + p.unchanged == theirs.len()
        }),
{
    lemma_counted(entry_keys(ours), by_mod(theirs));
    lemma_by_mod(theirs);
}

// ---------------------------------------------------------------------------
// Laws on names
// ---------------------------------------------------------------------------

/// A version by its characters: a `v` or none, a digit, and then any number of
/// digits, dots and underscores.
pub open spec fn numbered(token: Seq<char>) -> bool {
    exists|digit: char, rest: Seq<char>|
        #![trigger seq![digit] + rest]
        (token == seq![digit] + rest || token == seq!['v'] + (seq![digit] + rest)) && '0' <= digit
            <= '9' && forall|i: int|
            0 <= i < rest.len() ==> ('0' <= #[trigger] rest[i] <= '9' || rest[i] == '.' || rest[i]
                == '_')
}

/// Somewhere behind a dash, up to the next one or the end, stands a version.
pub open spec fn holds_version(text: Seq<char>) -> bool {
    exists|a: Seq<char>, token: Seq<char>, b: Seq<char>|
        text == #[trigger] (a + seq!['-'] + token + b) && numbered(token) && (b.len() == 0 || b[0]
            == '-')
}

proof fn lemma_numbered(token: Seq<char>)
    ensures
        is_version(token) <==> numbered(token),
{
    reveal_strlit("v");
    let t = without_v(token);
    if is_version(token) {
        let digit = t[0];
        let rest = t.skip(1);
        assert(t =~= seq![digit] + rest);
        assert forall|i: int| 0 <= i < rest.len() implies ('0' <= #[trigger] rest[i] <= '9'
            || rest[i] == '.' || rest[i] == '_') by {
            assert(version_char(t[i + 1]));
        }
        if strip_prefix(token, "v"@) is Some {
            assert(token.subrange(0, 1)[0] == "v"@[0]);
            assert(token =~= seq!['v'] + t);
        }
        assert(token == seq![digit] + rest || token == seq!['v'] + (seq![digit] + rest));
    }
    if numbered(token) {
        let (digit, rest) = choose|digit: char, rest: Seq<char>|
            #![trigger seq![digit] + rest]
            (token == seq![digit] + rest || token == seq!['v'] + (seq![digit] + rest)) && '0'
                <= digit <= '9' && forall|i: int|
                0 <= i < rest.len() ==> ('0' <= #[trigger] rest[i] <= '9' || rest[i] == '.'
                    || rest[i] == '_');
        let plain = seq![digit] + rest;
        assert("v"@ =~= seq!['v']);
        if token == plain {
            if "v"@.is_prefix_of(token) {
                assert(token.subrange(0, 1)[0] == token[0]);
            }
        } else {
            assert("v"@.is_prefix_of(token)) by {
                assert(token.subrange(0, 1) =~= "v"@);
            }
            assert(token.skip(1) =~= plain);
        }
        assert(t == plain);
        assert forall|i: int| 0 <= i < t.len() implies version_char(#[trigger] t[i]) by {
            if i > 0 {
                assert(t[i] == rest[i - 1]);
            }
        }
    }
}

/// A piece behind the first stands behind a separator, up to the next one or the
/// end.
#[verifier::rlimit(40)]
proof fn lemma_piece_stands(s: Seq<char>, c: char, i: int) -> (r: (Seq<char>, Seq<char>))
    requires
        0 < i < split(s, c).len(),
    ensures
        s == r.0 + seq![c] + split(s, c)[i] + r.1,
        r.1.len() == 0 || r.1[0] == c,
    decreases s.len(),
{
    let k = find(s, c);
    lemma_find(s, c, 0);
    let head = s.take(k);
    let rest = s.skip(k + 1);
    assert(s =~= head + seq![c] + rest);
    let piece = split(s, c)[i];
    assert(piece == split(rest, c)[i - 1]);
    if i == 1 {
        let m = find(rest, c);
        lemma_find(rest, c, 0);
        let back = rest.skip(m);
        assert(piece =~= rest.take(m)) by {
            if m >= rest.len() {
                assert(split(rest, c) =~= seq![rest]);
                assert(rest.take(m) =~= rest);
            }
        }
        assert(s =~= head + seq![c] + piece + back);
        (head, back)
    } else {
        let (a, b) = lemma_piece_stands(rest, c, i - 1);
        let front = head + seq![c] + a;
        assert(s =~= front + seq![c] + piece + b);
        (front, b)
    }
}

proof fn lemma_no_version(front: Seq<char>)
    requires
        !holds_version(front),
    ensures
        version_at(split(front, '-'), 1) == split(front, '-').len(),
{
    let parts = split(front, '-');
    crate::text::law_pieces_make_up_the_text(front, '-');
    assert forall|i: int| 1 <= i < parts.len() implies !is_version(#[trigger] parts[i]) by {
        if is_version(parts[i]) {
            lemma_numbered(parts[i]);
            let (a, b) = lemma_piece_stands(front, '-', i);
            assert(front == a + seq!['-'] + parts[i] + b);
        }
    }
    lemma_version_at_end(parts, 1);
}

proof fn lemma_version_at_end(parts: Seq<Seq<char>>, from: int)
    requires
        0 <= from <= parts.len(),
        forall|i: int| from <= i < parts.len() ==> !is_version(#[trigger] parts[i]),
    ensures
        version_at(parts, from) == parts.len(),
    decreases parts.len() - from,
{
    if from < parts.len() {
        assert(!is_version(parts[from]));
        lemma_version_at_end(parts, from + 1);
    }
}

/// A mod is matched by the lower-case name in front of its version. Whatever the
/// version is, however long, and whatever words follow it, it does not matter; nor
/// does it whether the mod is on or off. A name without a version is taken whole.
#[verifier::rlimit(40)]
pub proof fn law_the_key_is_the_name_in_front_of_the_version(
    front: Seq<char>,
    version: Seq<char>,
    tail: Seq<char>,
    ending: Seq<char>,
)
    requires
        !holds_version(front),
        numbered(version),
        tail.len() == 0 || tail[0] == '-',
        ending == ".jar"@ || ending == ".litemod"@,
    ensures
        key_of_name(front + "-"@ + version + tail + ending) == lowercase(front),
        key_of_name(front + "-"@ + version + tail + ending + ".disabled"@) == lowercase(front),
        key_of_name(front + ending) == lowercase(front),
        key_of_name(front + ending + ".disabled"@) == lowercase(front),
{
    lemma_numbered(version);
    lemma_no_version(front);
    law_the_key_ignores_version_and_state(front, version, tail, ending);
    crate::text::law_pieces_make_up_the_text(front, '-');
    let parts = split(front, '-');
    assert(parts.take(parts.len() as int) =~= parts);
    reveal_strlit("-");
    assert("-"@ =~= seq!['-']);
    assert(key_of_front(front) == lowercase(front));
    reveal_strlit(".jar");
    reveal_strlit(".litemod");
    reveal_strlit(".disabled");
    let file = front + ending;
    assert(mod_stem(file) == front) by {
        crate::text::law_stripping(front, ending);
        if ending == ".litemod"@ && ".jar"@.is_suffix_of(file) {
            assert(".jar"@[3] == file.subrange(file.len() - 4, file.len() as int)[3]);
            assert(file.last() == ending[7]);
        }
    }
    assert(enabled_name(file) == file) by {
        if ".disabled"@.is_suffix_of(file) {
            assert(".disabled"@[8] == file.subrange(file.len() - 9, file.len() as int)[8]);
            assert(file.last() == ending.last());
            assert(".disabled"@[7] == file.subrange(file.len() - 9, file.len() as int)[7]);
            assert(file[file.len() - 2] == ending[ending.len() - 2]);
        }
    }
    crate::text::law_stripping(file, ".disabled"@);
}

/// The path of the mod file called `name`, which is on or has the suffix that turns
/// it off.
pub open spec fn is_file(rel: Seq<char>, name: Seq<char>, on: bool) -> bool {
    &&& !name.contains('/')
    &&& on ==> !".disabled"@.is_suffix_of(name)
    &&& exists|dir: Seq<char>|
        (dir.len() == 0 || dir.last() == '/') && rel == #[trigger] (dir + name_on_disk(name, on))
}

/// The name of a mod file as it is on disk.
pub open spec fn name_on_disk(name: Seq<char>, on: bool) -> Seq<char> {
    if on {
        name
    } else {
        name + ".disabled"@
    }
}

proof fn lemma_last_piece(dir: Seq<char>, name: Seq<char>)
    requires
        dir.len() == 0 || dir.last() == '/',
        !name.contains('/'),
    ensures
        name_of(dir + name) == name,
{
    lemma_find(name, '/', 0);
    if find(name, '/') < name.len() {
        assert(name.contains(name[find(name, '/')]));
    }
    assert(split(name, '/') =~= seq![name]);
    if dir.len() == 0 {
        assert(dir + name =~= name);
    } else {
        let top = dir.drop_last();
        assert(dir + name =~= top + seq!['/'] + name);
        lemma_split_concat(top, name, '/');
        assert(split(dir + name, '/').last() == name);
    }
}

/// A mod file is called by the last part of its path, without the suffix that turns
/// it off.
#[verifier::rlimit(40)]
pub proof fn law_names_and_states(rel: Seq<char>, name: Seq<char>, on: bool)
    requires
        is_file(rel, name, on),
    ensures
        enabled_name(name_of(rel)) == name,
        is_enabled(name_of(rel)) == on,
        name_of(rel) == name_on_disk(name, on),
{
    reveal_strlit(".disabled");
    let file = name_on_disk(name, on);
    let dir = choose|dir: Seq<char>|
        (dir.len() == 0 || dir.last() == '/') && rel == #[trigger] (dir + file);
    assert(!file.contains('/')) by {
        if file.contains('/') {
            let i = file.index_of('/');
            if i < name.len() {
                assert(name[i] == '/');
                assert(name.contains('/'));
            } else {
                assert(".disabled"@[i - name.len()] == '/');
            }
        }
    }
    lemma_last_piece(dir, file);
    if !on {
        crate::text::law_stripping(name, ".disabled"@);
    }
}

#[verifier::rlimit(40)]
proof fn lemma_of_mod(files: Seq<Seq<char>>, key: Seq<char>)
    ensures
        forall|x: Seq<char>| #[trigger]
            of_mod(files, key).contains(x) <==> files.contains(x) && key_of(x) == key,
        of_mod(files, key).len() > 0 ==> exists|i: int|
            0 <= i < files.len() && #[trigger] files[i] == of_mod(files, key)[0] && forall|j: int|
                0 <= j < i ==> key_of(#[trigger] files[j]) != key,
    decreases files.len(),
{
    let all = of_mod(files, key);
    if files.len() > 0 {
        let init = files.drop_last();
        let less = of_mod(init, key);
        let last = files.last();
        lemma_of_mod(init, key);
        assert forall|x: Seq<char>| #[trigger] all.contains(x) <==> files.contains(x) && key_of(x)
            == key by {
            if all.contains(x) {
                let i = all.index_of(x);
                if i < less.len() {
                    assert(less[i] == x);
                    assert(less.contains(x));
                    assert(files[init.index_of(x)] == x);
                } else {
                    assert(files[files.len() - 1] == x);
                }
            }
            if files.contains(x) && key_of(x) == key {
                let i = files.index_of(x);
                if i < init.len() {
                    assert(init[i] == x);
                    assert(less.contains(x));
                    assert(all[less.index_of(x)] == x);
                } else {
                    assert(all[less.len() as int] == x);
                }
            }
        }
        if less.len() > 0 {
            let i = choose|i: int|
                0 <= i < init.len() && #[trigger] init[i] == less[0] && forall|j: int|
                    0 <= j < i ==> key_of(#[trigger] init[j]) != key;
            assert(files[i] == all[0]);
            assert forall|j: int| 0 <= j < i implies key_of(#[trigger] files[j]) != key by {
                assert(init[j] == files[j]);
            }
        } else if all.len() > 0 {
            let i = files.len() - 1;
            assert(files[i] == all[0]);
            assert forall|j: int| 0 <= j < i implies key_of(#[trigger] files[j]) != key by {
                if key_of(files[j]) == key {
                    assert(init[j] == files[j]);
                    assert(init.contains(files[j]));
                    assert(less.contains(files[j]));
                }
            }
        }
    }
}

/// The old instance has a file of that mod.
pub open spec fn has_mod(ours: Seq<(Seq<char>, u64)>, key: Seq<char>) -> bool {
    exists|e: (Seq<char>, u64)| #[trigger] ours.contains(e) && key_of(e.0) == key
}

proof fn lemma_mine(ours: Seq<(Seq<char>, u64)>, rel: Seq<char>)
    ensures
        forall|x: Seq<char>| #[trigger]
            matches(entry_keys(ours), rel).contains(x) <==> key_of(x) == key_of(rel) && exists|
                e: (Seq<char>, u64),
            | #[trigger]
                ours.contains(e) && e.0 == x,
        has_mod(ours, key_of(rel)) <==> matches(entry_keys(ours), rel).len() > 0,
{
    let os = entry_keys(ours);
    let mine = matches(os, rel);
    lemma_of_mod(os, key_of(rel));
    assert forall|x: Seq<char>| #[trigger] mine.contains(x) <==> key_of(x) == key_of(rel) && exists|
        e: (Seq<char>, u64),
    | #[trigger] ours.contains(e) && e.0 == x by {
        if mine.contains(x) {
            let i = os.index_of(x);
            assert(ours.contains(ours[i]) && ours[i].0 == x);
        }
        if exists|e: (Seq<char>, u64)| #[trigger] ours.contains(e) && e.0 == x {
            let e = choose|e: (Seq<char>, u64)| #[trigger] ours.contains(e) && e.0 == x;
            assert(os[ours.index_of(e)] == x);
        }
    }
    if mine.len() > 0 {
        assert(mine.contains(mine[0]));
        let e = choose|e: (Seq<char>, u64)| #[trigger] ours.contains(e) && e.0 == mine[0];
        assert(ours.contains(e) && key_of(e.0) == key_of(rel));
    }
    if has_mod(ours, key_of(rel)) {
        let e = choose|e: (Seq<char>, u64)| #[trigger] ours.contains(e) && key_of(e.0) == key_of(rel);
        assert(mine.contains(e.0));
    }
}

/// Whatever the new pack has of a mod that the instance has too is never added, and
/// where the instance has no file of the same name it is an update of the first one
/// that it has; a mod that the instance does not have is added.
#[verifier::rlimit(40)]
pub proof fn law_same_mods_are_updated_and_others_added(
    base: Seq<Seq<char>>,
    ours: Seq<(Seq<char>, u64)>,
    theirs: Seq<Seq<char>>,
    rel: Seq<char>,
    name: Seq<char>,
    on: bool,
)
    requires
        theirs.contains(rel),
        is_file(rel, name, on),
    ensures
        plan_of(base, ours, theirs).added.contains(rel) <==> !has_mod(ours, key_of(rel)),
        forall|k: int, from: Seq<char>, state: bool|
            0 <= k < ours.len() && key_of(ours[k].0) == key_of(rel) && #[trigger] is_file(
                ours[k].0,
                from,
                state,
            ) && (forall|j: int| 0 <= j < k ==> key_of((#[trigger] ours[j]).0) != key_of(rel)) && (
            forall|e: (Seq<char>, u64), s: bool|
                ours.contains(e) ==> !#[trigger] is_file(e.0, name, s)) ==> plan_of(
                base,
                ours,
                theirs,
            ).updated.contains((from, name)),
{
    let os = entry_keys(ours);
    let mine = matches(os, rel);
    let p = plan_of(base, ours, theirs);
    lemma_mine(ours, rel);
    lemma_by_mod(theirs);
    let f = |x: Seq<char>| as_added(os, x);
    lemma_collected(by_mod(theirs), f);
    assert(p.added == collected(by_mod(theirs), f));
    if p.added.contains(rel) {
        let a = choose|a: Seq<char>| by_mod(theirs).contains(a) && #[trigger] f(a) == Some(rel);
        assert(as_added(os, a) == Some(rel));
    }
    if !has_mod(ours, key_of(rel)) {
        assert(by_mod(theirs).contains(rel));
        assert(f(rel) == Some(rel));
    }
    law_names_and_states(rel, name, on);
    assert forall|k: int, from: Seq<char>, state: bool|
        0 <= k < ours.len() && key_of(ours[k].0) == key_of(rel) && #[trigger] is_file(
            ours[k].0,
            from,
            state,
        ) && (forall|j: int| 0 <= j < k ==> key_of((#[trigger] ours[j]).0) != key_of(rel)) && (
        forall|e: (Seq<char>, u64), s: bool|
            ours.contains(e) ==> !#[trigger] is_file(
                e.0,
                name,
                s,
            )) implies p.updated.contains((from, name)) by {
        law_names_and_states(ours[k].0, from, state);
        assert(ours.contains(ours[k]));
        assert(mine.contains(ours[k].0));
        lemma_of_mod(os, key_of(rel));
        let i = choose|i: int|
            0 <= i < os.len() && #[trigger] os[i] == mine[0] && forall|j: int|
                0 <= j < i ==> key_of(#[trigger] os[j]) != key_of(rel);
        assert(mine.contains(mine[0]));
        if i < k {
            assert(key_of(ours[i].0) != key_of(rel));
        }
        if k < i {
            assert(key_of(os[k]) != key_of(rel));
        }
        assert(mine[0] == ours[k].0);
        lemma_name_state(mine, name);
        if name_state(mine, name) is Some {
            let m = choose|m: int|
                0 <= m < mine.len() && enabled_name(name_of(#[trigger] mine[m])) == name;
            assert(mine.contains(mine[m]));
            let e = choose|e: (Seq<char>, u64)| #[trigger] ours.contains(e) && e.0 == mine[m];
            lemma_is_file(e.0);
            assert(is_file(e.0, enabled_name(name_of(e.0)), is_enabled(name_of(e.0))));
        }
        let u = |x: Seq<char>| as_updated(os, x);
        lemma_collected(by_mod(theirs), u);
        assert(p.updated == collected(by_mod(theirs), u));
        assert(by_mod(theirs).contains(rel));
        assert(u(rel) == Some((from, name)));
    }
}

/// The name of a file is what stands behind the last slash of its path.
proof fn lemma_directory(rel: Seq<char>) -> (dir: Seq<char>)
    ensures
        dir.len() == 0 || dir.last() == '/',
        rel == dir + name_of(rel),
        !name_of(rel).contains('/'),
{
    let file = name_of(rel);
    crate::text::law_pieces_make_up_the_text(rel, '/');
    let pieces = split(rel, '/');
    assert(!pieces[pieces.len() - 1].contains('/'));
    if pieces.len() > 1 {
        lemma_last_is_last(rel, '/');
        let dir = rel.take(rel.len() - file.len());
        assert(rel =~= dir + file);
        dir
    } else {
        lemma_find(rel, '/', 0);
        if find(rel, '/') < rel.len() {
            crate::text::law_pieces_make_up_the_text(rel.skip(find(rel, '/') + 1), '/');
        }
        assert(pieces =~= seq![rel]);
        assert(rel =~= Seq::<char>::empty() + file);
        Seq::empty()
    }
}

/// Every path is that of some file in some state.
proof fn lemma_is_file(rel: Seq<char>)
    ensures
        is_file(rel, enabled_name(name_of(rel)), is_enabled(name_of(rel))),
{
    let file = name_of(rel);
    let name = enabled_name(file);
    let on = is_enabled(file);
    let dir = lemma_directory(rel);
    crate::text::law_stripping(file, ".disabled"@);
    assert(file == name_on_disk(name, on));
    assert(rel == dir + name_on_disk(name, on));
    if name.contains('/') {
        assert(file[name.index_of('/')] == '/');
        assert(file.contains('/'));
    }
}

/// The last piece ends the text, and stands behind a separator where it is not the
/// only one.
proof fn lemma_last_is_last(s: Seq<char>, c: char)
    requires
        split(s, c).len() > 1,
    ensures
        split(s, c).last().len() < s.len(),
        s.skip(s.len() - split(s, c).last().len()) == split(s, c).last(),
        s[s.len() - split(s, c).last().len() - 1] == c,
    decreases s.len(),
{
    let k = find(s, c);
    lemma_find(s, c, 0);
    let rest = s.skip(k + 1);
    assert(split(s, c).last() == split(rest, c).last()) by {
        crate::text::law_pieces_make_up_the_text(rest, c);
    }
    if split(rest, c).len() > 1 {
        lemma_last_is_last(rest, c);
        assert(s.skip(s.len() - split(s, c).last().len()) =~= rest.skip(
            rest.len() - split(s, c).last().len(),
        ));
    } else {
        crate::text::law_pieces_make_up_the_text(rest, c);
        assert(split(rest, c) =~= seq![rest]) by {
            lemma_find(rest, c, 0);
            if find(rest, c) < rest.len() {
                crate::text::law_pieces_make_up_the_text(rest.skip(find(rest, c) + 1), c);
            }
        }
        assert(s.skip(s.len() - rest.len()) =~= rest);
    }
}

/// A file of the instance is decided on exactly where the new pack has nothing of
/// its mod. What the version you are on shipped of the mod makes it a removal by the
/// pack, which is not kept unless you say so; anything else is your own, and kept.
pub proof fn law_what_is_asked_about_a_mod(
    base: Seq<Seq<char>>,
    ours: Seq<(Seq<char>, u64)>,
    theirs: Seq<Seq<char>>,
    rel: Seq<char>,
    size: u64,
    name: Seq<char>,
    on: bool,
)
    requires
        crate::textmap::ascending(entry_keys(ours)),
        ours.contains((rel, size)),
        is_file(rel, name, on),
    ensures
        ({
            let p = plan_of(base, ours, theirs);
            let shipped = exists|b: Seq<char>| #[trigger]
                base.contains(b) && key_of(b) == key_of(rel);
            let still = exists|t: Seq<char>| #[trigger]
                theirs.contains(t) && key_of(t) == key_of(rel);
            &&& still ==> forall|d: DecisionView| #[trigger] p.decisions.contains(d) ==> d.rel != rel
            &&& !still ==> p.decisions.contains(
                DecisionView {
                    rel,
                    file: name_on_disk(name, on),
                    kind: if shipped {
                        ModKind::RemovedByPack
                    } else {
                        ModKind::UserAdded
                    },
                    keep: !shipped,
                    size,
                },
            )
        }),
{
    let p = plan_of(base, ours, theirs);
    let os = entry_keys(ours);
    let i = ours.index_of((rel, size));
    assert(os[i] == rel);
    law_names_and_states(rel, name, on);
    lemma_has_key(base, key_of(rel));
    lemma_has_key(theirs, key_of(rel));
    if has_key(theirs, key_of(rel)) {
        assert forall|d: DecisionView| #[trigger] p.decisions.contains(d) implies d.rel != rel by {
            law_decisions_tell_removals_from_your_own(base, ours, theirs, d);
        }
    } else {
        law_no_mod_disappears_unasked(base, ours, theirs, rel);
        crate::textmap::lemma_latest_in_order(ours, i);
    }
}

proof fn lemma_has_key(files: Seq<Seq<char>>, key: Seq<char>)
    ensures
        has_key(files, key) <==> exists|x: Seq<char>| #[trigger] files.contains(x) && key_of(x)
            == key,
{
    if has_key(files, key) {
        let i = choose|i: int| 0 <= i < files.len() && key_of(#[trigger] files[i]) == key;
        assert(files.contains(files[i]) && key_of(files[i]) == key);
    }
    if exists|x: Seq<char>| #[trigger] files.contains(x) && key_of(x) == key {
        let x = choose|x: Seq<char>| #[trigger] files.contains(x) && key_of(x) == key;
        assert(key_of(files[files.index_of(x)]) == key);
    }
}

proof fn lemma_state_by_name(files: Seq<Seq<char>>, name: Seq<char>, on: bool)
    requires
        name_state(files, name) is Some,
        forall|i: int|
            0 <= i < files.len() && enabled_name(name_of(#[trigger] files[i])) == name ==> is_enabled(
                name_of(files[i]),
            ) == on,
    ensures
        name_state(files, name) == Some(on),
    decreases files.len(),
{
    if files.len() > 0 {
        let init = files.drop_last();
        if enabled_name(name_of(files.last())) == name {
            assert(is_enabled(name_of(files[files.len() - 1])) == on);
        } else {
            assert forall|i: int|
                0 <= i < init.len() && enabled_name(name_of(#[trigger] init[i]))
                    == name implies is_enabled(name_of(init[i])) == on by {
                assert(init[i] == files[i]);
            }
            lemma_state_by_name(init, name, on);
        }
    }
}

/// A mod that you turned off stays off in the new version, and one that you turned on
/// stays on: where every file that the instance has of a mod is in the one state, the
/// pack's file is switched to it, and left alone where it is in it already.
pub proof fn law_a_mod_stays_on_or_off(
    base: Seq<Seq<char>>,
    ours: Seq<(Seq<char>, u64)>,
    theirs: Seq<Seq<char>>,
    rel: Seq<char>,
    name: Seq<char>,
    on: bool,
    wanted: bool,
)
    requires
        theirs.contains(rel),
        is_file(rel, name, on),
        has_mod(ours, key_of(rel)),
        forall|e: (Seq<char>, u64), n: Seq<char>, s: bool|
            ours.contains(e) && key_of(e.0) == key_of(rel) && #[trigger] is_file(e.0, n, s) ==> s
                == wanted,
    ensures
        ({
            let changes = plan_of(base, ours, theirs).state_changes;
            &&& on != wanted ==> changes.contains(
                StateChangeView { rel, file: name, enable: wanted },
            )
            &&& on == wanted ==> forall|c: StateChangeView| #[trigger] changes.contains(c) ==> c.rel
                != rel
        }),
{
    let os = entry_keys(ours);
    let mine = matches(os, rel);
    lemma_mine(ours, rel);
    law_names_and_states(rel, name, on);
    assert forall|i: int| 0 <= i < mine.len() implies is_enabled(name_of(#[trigger] mine[i]))
        == wanted by {
        assert(mine.contains(mine[i]));
        let e = choose|e: (Seq<char>, u64)| #[trigger] ours.contains(e) && e.0 == mine[i];
        lemma_is_file(e.0);
        assert(is_file(e.0, enabled_name(name_of(e.0)), is_enabled(name_of(e.0))));
    }
    assert(all_are(mine, wanted)) by {
        assert forall|i: int| 0 <= i < mine.len() implies name_state(
            mine,
            enabled_name(name_of(#[trigger] mine[i])),
        ) == Some(wanted) by {
            let n = enabled_name(name_of(mine[i]));
            lemma_name_state(mine, n);
            lemma_state_by_name(mine, n, wanted);
        }
    }
    if on != wanted {
        law_your_on_off_state_wins(base, ours, theirs, rel, wanted);
    } else {
        assert forall|c: StateChangeView| #[trigger]
            plan_of(base, ours, theirs).state_changes.contains(c) implies c.rel != rel by {
            law_matching_states_need_no_change(base, ours, theirs, c);
            if c.rel == rel {
                lemma_name_state(mine, name);
                if name_state(mine, name) is Some {
                    lemma_state_by_name(mine, name, wanted);
                } else {
                    assert(name_state(mine, enabled_name(name_of(mine[0]))) == Some(wanted));
                }
            }
        }
    }
}

/// The same file in the instance decides before the rest of its mod does.
pub proof fn law_the_same_file_decides_first(
    base: Seq<Seq<char>>,
    ours: Seq<(Seq<char>, u64)>,
    theirs: Seq<Seq<char>>,
    rel: Seq<char>,
    name: Seq<char>,
    on: bool,
    same: (Seq<char>, u64),
    wanted: bool,
)
    requires
        theirs.contains(rel),
        is_file(rel, name, on),
        ours.contains(same),
        is_file(same.0, name, wanted),
        forall|e: (Seq<char>, u64), s: bool|
            ours.contains(e) && key_of(e.0) == key_of(rel) && #[trigger] is_file(e.0, name, s) ==> s
                == wanted,
    ensures
        ({
            let changes = plan_of(base, ours, theirs).state_changes;
            &&& on != wanted ==> changes.contains(
                StateChangeView { rel, file: name, enable: wanted },
            )
            &&& on == wanted ==> forall|c: StateChangeView| #[trigger] changes.contains(c) ==> c.rel
                != rel
        }),
{
    let os = entry_keys(ours);
    let mine = matches(os, rel);
    lemma_mine(ours, rel);
    law_names_and_states(rel, name, on);
    law_names_and_states(same.0, name, wanted);
    assert(key_of(same.0) == key_of(rel));
    assert(mine.contains(same.0));
    let k = mine.index_of(same.0);
    assert(enabled_name(name_of(mine[k])) == name);
    lemma_name_state(mine, name);
    assert forall|i: int|
        0 <= i < mine.len() && enabled_name(name_of(#[trigger] mine[i])) == name implies is_enabled(
        name_of(mine[i]),
    ) == wanted by {
        assert(mine.contains(mine[i]));
        let e = choose|e: (Seq<char>, u64)| #[trigger] ours.contains(e) && e.0 == mine[i];
        lemma_is_file(e.0);
    }
    lemma_state_by_name(mine, name, wanted);
    if on != wanted {
        law_your_on_off_state_wins(base, ours, theirs, rel, wanted);
    } else {
        assert forall|c: StateChangeView| #[trigger]
            plan_of(base, ours, theirs).state_changes.contains(c) implies c.rel != rel by {
            law_matching_states_need_no_change(base, ours, theirs, c);
        }
    }
}

/// Removals by the pack are listed in front of your own mods.
pub proof fn law_removals_are_listed_first(
    base: Seq<Seq<char>>,
    ours: Seq<(Seq<char>, u64)>,
    theirs: Seq<Seq<char>>,
    i: int,
    j: int,
)
    requires
        0 <= i < j < plan_of(base, ours, theirs).decisions.len(),
        plan_of(base, ours, theirs).decisions[j].kind == ModKind::RemovedByPack,
    ensures
        plan_of(base, ours, theirs).decisions[i].kind == ModKind::RemovedByPack,
{
    let plain = decided_of(base, ours, theirs);
    let keys = decision_keys(plain);
    crate::order::law_sorting_keeps_every_item(keys);
    crate::order::law_sorting_is_stable(keys);
    let order = crate::order::order_of(keys);
    assert(order.contains(order[i]) && order.contains(order[j]));
    let a = order[i];
    let b = order[j];
    assert(keys[a].0 == if plain[a].kind == ModKind::UserAdded {
        1u64
    } else {
        0u64
    });
    assert(keys[b].0 == 0u64);
}

/// The name of a version of a mod.
pub open spec fn version_name(
    front: Seq<char>,
    version: Seq<char>,
    tail: Seq<char>,
    ending: Seq<char>,
) -> Seq<char> {
    front + "-"@ + version + tail + ending
}

proof fn lemma_version_name(
    rel: Seq<char>,
    front: Seq<char>,
    version: Seq<char>,
    tail: Seq<char>,
    ending: Seq<char>,
    on: bool,
)
    requires
        is_file(rel, version_name(front, version, tail, ending), on),
        !holds_version(front),
        numbered(version),
        tail.len() == 0 || tail[0] == '-',
        ending == ".jar"@ || ending == ".litemod"@,
    ensures
        key_of(rel) == lowercase(front),
{
    law_names_and_states(rel, version_name(front, version, tail, ending), on);
    law_the_key_is_the_name_in_front_of_the_version(front, version, tail, ending);
}

/// Two files that differ in the version alone are one mod, whatever the versions are:
/// the new one is never added, the old one never asked about, and where it is the
/// only file of its mod and the name has changed, it is listed as updated.
#[verifier::rlimit(40)]
pub proof fn law_a_new_version_is_an_update(
    base: Seq<Seq<char>>,
    ours: Seq<(Seq<char>, u64)>,
    theirs: Seq<Seq<char>>,
    k: int,
    rel: Seq<char>,
    front: Seq<char>,
    old_version: Seq<char>,
    new_version: Seq<char>,
    tail: Seq<char>,
    ending: Seq<char>,
    was_on: bool,
    on: bool,
)
    requires
        0 <= k < ours.len(),
        is_file(ours[k].0, version_name(front, old_version, tail, ending), was_on),
        theirs.contains(rel),
        is_file(rel, version_name(front, new_version, tail, ending), on),
        !holds_version(front),
        numbered(old_version),
        numbered(new_version),
        tail.len() == 0 || tail[0] == '-',
        ending == ".jar"@ || ending == ".litemod"@,
    ensures
        ({
            let p = plan_of(base, ours, theirs);
            let old_name = version_name(front, old_version, tail, ending);
            let new_name = version_name(front, new_version, tail, ending);
            let alone = forall|j: int|
                0 <= j < ours.len() && j != k ==> key_of((#[trigger] ours[j]).0) != lowercase(
                    front,
                );
            &&& !p.added.contains(rel)
            &&& forall|d: DecisionView| #[trigger] p.decisions.contains(d) ==> d.rel != ours[k].0
            &&& alone && old_version != new_version ==> p.updated.contains((old_name, new_name))
        }),
{
    let p = plan_of(base, ours, theirs);
    let old_name = version_name(front, old_version, tail, ending);
    let new_name = version_name(front, new_version, tail, ending);
    lemma_version_name(ours[k].0, front, old_version, tail, ending, was_on);
    lemma_version_name(rel, front, new_version, tail, ending, on);
    assert(ours.contains(ours[k]));
    law_same_mods_are_updated_and_others_added(base, ours, theirs, rel, new_name, on);
    assert forall|d: DecisionView| #[trigger] p.decisions.contains(d) implies d.rel != ours[k].0 by {
        law_decisions_tell_removals_from_your_own(base, ours, theirs, d);
        lemma_has_key(theirs, key_of(d.rel));
    }
    let alone = forall|j: int|
        0 <= j < ours.len() && j != k ==> key_of((#[trigger] ours[j]).0) != lowercase(front);
    if alone && old_version != new_version {
        assert forall|e: (Seq<char>, u64), s: bool|
            ours.contains(e) implies !#[trigger] is_file(e.0, new_name, s) by {
            if is_file(e.0, new_name, s) {
                lemma_version_name(e.0, front, new_version, tail, ending, s);
                let j = ours.index_of(e);
                assert(j == k);
                law_names_and_states(ours[k].0, old_name, was_on);
                law_names_and_states(ours[k].0, new_name, s);
                assert(old_name.len() == new_name.len());
                let n = front.len() + "-"@.len();
                let m = old_version.len() as int;
                assert(old_version =~= old_name.subrange(n as int, n + m));
                assert(new_version =~= new_name.subrange(n as int, n + m));
            }
        }
        assert(is_file(ours[k].0, old_name, was_on));
        assert(p.updated.contains((old_name, new_name)));
    }
}

/// What is listed as updated is a file of the new pack whose mod the instance has, and
/// under another name: nothing is updated to what is there already.
pub proof fn law_nothing_is_updated_to_itself(
    base: Seq<Seq<char>>,
    ours: Seq<(Seq<char>, u64)>,
    theirs: Seq<Seq<char>>,
    from: Seq<char>,
    to: Seq<char>,
)
    requires
        plan_of(base, ours, theirs).updated.contains((from, to)),
    ensures
        exists|rel: Seq<char>, on: bool| #[trigger]
            is_file(rel, to, on) && theirs.contains(rel) && has_mod(ours, key_of(rel)) && forall|
                e: (Seq<char>, u64),
                s: bool,
            |
                ours.contains(e) ==> !#[trigger] is_file(e.0, to, s),
        from != to,
{
    let os = entry_keys(ours);
    let u = |x: Seq<char>| as_updated(os, x);
    lemma_collected(by_mod(theirs), u);
    lemma_by_mod(theirs);
    assert(plan_of(base, ours, theirs).updated == collected(by_mod(theirs), u));
    let rel = choose|rel: Seq<char>|
        by_mod(theirs).contains(rel) && #[trigger] u(rel) == Some((from, to));
    assert(as_updated(os, rel) == Some((from, to)));
    let mine = matches(os, rel);
    let on = is_enabled(name_of(rel));
    lemma_is_file(rel);
    lemma_mine(ours, rel);
    lemma_name_state(mine, to);
    assert forall|e: (Seq<char>, u64), s: bool| ours.contains(e) implies !#[trigger] is_file(
        e.0,
        to,
        s,
    ) by {
        if is_file(e.0, to, s) {
            law_names_and_states(e.0, to, s);
            assert(key_of(e.0) == key_of(rel));
            assert(mine.contains(e.0));
            let i = mine.index_of(e.0);
            assert(enabled_name(name_of(mine[i])) == to);
        }
    }
    assert(is_file(rel, to, on) && theirs.contains(rel));
    assert(enabled_name(name_of(mine[0])) == from);
}

proof fn lemma_last_of_name(
    files: Seq<Seq<char>>,
    key: Seq<char>,
    name: Seq<char>,
    on: bool,
    k: int,
)
    requires
        0 <= k < files.len(),
        key_of(files[k]) == key,
        enabled_name(name_of(files[k])) == name,
        is_enabled(name_of(files[k])) == on,
        forall|j: int|
            k < j < files.len() && key_of(#[trigger] files[j]) == key ==> enabled_name(
                name_of(files[j]),
            ) != name,
    ensures
        name_state(of_mod(files, key), name) == Some(on),
    decreases files.len(),
{
    let init = files.drop_last();
    let all = of_mod(files, key);
    if k < files.len() - 1 {
        assert(init[k] == files[k]);
        assert forall|j: int| k < j < init.len() && key_of(#[trigger] init[j]) == key implies enabled_name(
            name_of(init[j]),
        ) != name by {
            assert(init[j] == files[j]);
        }
        lemma_last_of_name(init, key, name, on, k);
        assert(files[files.len() - 1] == files.last());
        if key_of(files.last()) == key {
            assert(all.drop_last() =~= of_mod(init, key));
            assert(all.last() == files.last());
        }
    } else {
        assert(all.last() == files.last());
    }
}

/// Where the instance has files of that very name, the last of them says whether the
/// new one is on or off.
pub proof fn law_the_last_file_of_a_name_decides(
    base: Seq<Seq<char>>,
    ours: Seq<(Seq<char>, u64)>,
    theirs: Seq<Seq<char>>,
    rel: Seq<char>,
    name: Seq<char>,
    on: bool,
    k: int,
    wanted: bool,
)
    requires
        theirs.contains(rel),
        is_file(rel, name, on),
        0 <= k < ours.len(),
        is_file(ours[k].0, name, wanted),
        forall|j: int, s: bool|
            k < j < ours.len() ==> !#[trigger] is_file(ours[j].0, name, s),
    ensures
        ({
            let changes = plan_of(base, ours, theirs).state_changes;
            &&& on != wanted ==> changes.contains(
                StateChangeView { rel, file: name, enable: wanted },
            )
            &&& on == wanted ==> forall|c: StateChangeView| #[trigger] changes.contains(c) ==> c.rel
                != rel
        }),
{
    let os = entry_keys(ours);
    law_names_and_states(rel, name, on);
    law_names_and_states(ours[k].0, name, wanted);
    assert(os[k] == ours[k].0);
    assert(key_of(ours[k].0) == key_of(rel));
    assert forall|j: int| k < j < os.len() && key_of(#[trigger] os[j]) == key_of(rel) implies enabled_name(
        name_of(os[j]),
    ) != name by {
        assert(os[j] == ours[j].0);
        lemma_is_file(ours[j].0);
        assert(!is_file(ours[j].0, name, is_enabled(name_of(ours[j].0))));
    }
    lemma_last_of_name(os, key_of(rel), name, wanted, k);
    if on != wanted {
        law_your_on_off_state_wins(base, ours, theirs, rel, wanted);
    } else {
        assert forall|c: StateChangeView| #[trigger]
            plan_of(base, ours, theirs).state_changes.contains(c) implies c.rel != rel by {
            law_matching_states_need_no_change(base, ours, theirs, c);
        }
    }
}

/// Where the files of a mod do not agree and none has the new name, the pack's file
/// stays as the pack ships it.
#[verifier::rlimit(40)]
pub proof fn law_mixed_states_leave_the_pack_alone(
    base: Seq<Seq<char>>,
    ours: Seq<(Seq<char>, u64)>,
    theirs: Seq<Seq<char>>,
    rel: Seq<char>,
    name: Seq<char>,
    on: bool,
    a: (Seq<char>, u64),
    first: Seq<char>,
    b: (Seq<char>, u64),
    second: Seq<char>,
)
    requires
        theirs.contains(rel),
        is_file(rel, name, on),
        forall|e: (Seq<char>, u64), s: bool| ours.contains(e) ==> !#[trigger] is_file(e.0, name, s),
        ours.contains(a) && key_of(a.0) == key_of(rel) && is_file(a.0, first, true),
        ours.contains(b) && key_of(b.0) == key_of(rel) && is_file(b.0, second, false),
        forall|e: (Seq<char>, u64)| ours.contains(e) ==> !#[trigger] is_file(e.0, first, false),
        forall|e: (Seq<char>, u64)| ours.contains(e) ==> !#[trigger] is_file(e.0, second, true),
    ensures
        forall|c: StateChangeView| #[trigger]
            plan_of(base, ours, theirs).state_changes.contains(c) ==> c.rel != rel,
{
    let os = entry_keys(ours);
    let mine = matches(os, rel);
    lemma_mine(ours, rel);
    law_names_and_states(rel, name, on);
    law_names_and_states(a.0, first, true);
    law_names_and_states(b.0, second, false);
    assert(mine.contains(a.0) && mine.contains(b.0));
    let i = mine.index_of(a.0);
    let j = mine.index_of(b.0);
    assert forall|m: int| 0 <= m < mine.len() implies ours_has(ours, #[trigger] mine[m]) by {
        assert(mine.contains(mine[m]));
    }
    lemma_name_state(mine, first);
    lemma_name_state(mine, second);
    lemma_name_state(mine, name);
    assert forall|m: int|
        0 <= m < mine.len() && enabled_name(name_of(#[trigger] mine[m])) == first implies is_enabled(
        name_of(mine[m]),
    ) == true by {
        assert(ours_has(ours, mine[m]));
        let e = choose|e: (Seq<char>, u64)| #[trigger] ours.contains(e) && e.0 == mine[m];
        lemma_is_file(e.0);
    }
    assert forall|m: int|
        0 <= m < mine.len() && enabled_name(name_of(#[trigger] mine[m])) == second implies is_enabled(
        name_of(mine[m]),
    ) == false by {
        assert(ours_has(ours, mine[m]));
        let e = choose|e: (Seq<char>, u64)| #[trigger] ours.contains(e) && e.0 == mine[m];
        lemma_is_file(e.0);
    }
    assert(enabled_name(name_of(mine[i])) == first && enabled_name(name_of(mine[j])) == second);
    lemma_state_by_name(mine, first, true);
    lemma_state_by_name(mine, second, false);
    assert(!all_are(mine, true));
    assert(!all_are(mine, false));
    if name_state(mine, name) is Some {
        let m = choose|m: int|
            0 <= m < mine.len() && enabled_name(name_of(#[trigger] mine[m])) == name;
        assert(ours_has(ours, mine[m]));
        let e = choose|e: (Seq<char>, u64)| #[trigger] ours.contains(e) && e.0 == mine[m];
        lemma_is_file(e.0);
        assert(is_file(e.0, name, is_enabled(name_of(e.0))));
    }
    assert forall|c: StateChangeView| #[trigger]
        plan_of(base, ours, theirs).state_changes.contains(c) implies c.rel != rel by {
        law_matching_states_need_no_change(base, ours, theirs, c);
    }
}

spec fn ours_has(ours: Seq<(Seq<char>, u64)>, rel: Seq<char>) -> bool {
    exists|e: (Seq<char>, u64)| #[trigger] ours.contains(e) && e.0 == rel
}

/// Decisions of one kind, and the mods that are switched, are listed by file name,
/// whatever the case of its letters.
pub proof fn law_mods_are_listed_by_name(
    base: Seq<Seq<char>>,
    ours: Seq<(Seq<char>, u64)>,
    theirs: Seq<Seq<char>>,
    i: int,
    j: int,
)
    requires
        0 <= i < j,
    ensures
        ({
            let p = plan_of(base, ours, theirs);
            &&& j < p.decisions.len() && p.decisions[i].kind == p.decisions[j].kind ==> !crate::text::before(
                lowercase(p.decisions[j].file),
                lowercase(p.decisions[i].file),
            )
            &&& j < p.state_changes.len() ==> !crate::text::before(
                lowercase(p.state_changes[j].file),
                lowercase(p.state_changes[i].file),
            )
        }),
{
    let p = plan_of(base, ours, theirs);
    let plain = decided_of(base, ours, theirs);
    let keys = decision_keys(plain);
    crate::order::law_sorting_keeps_every_item(keys);
    crate::order::law_sorting_is_stable(keys);
    let order = crate::order::order_of(keys);
    if j < p.decisions.len() {
        assert(order.contains(order[i]) && order.contains(order[j]));
        let a = order[i];
        let b = order[j];
        assert(p.decisions[i] == plain[a] && p.decisions[j] == plain[b]);
        crate::textmap::law_order_is_total(lowercase(plain[a].file), lowercase(plain[b].file));
        assert(keys[a].1 == lowercase(plain[a].file) && keys[b].1 == lowercase(plain[b].file));
    }
    let os = entry_keys(ours);
    let changes = switched_of(os, theirs);
    let marks = change_keys(changes);
    crate::order::law_sorting_keeps_every_item(marks);
    crate::order::law_sorting_is_stable(marks);
    let places = crate::order::order_of(marks);
    if j < p.state_changes.len() {
        assert(places.contains(places[i]) && places.contains(places[j]));
        let a = places[i];
        let b = places[j];
        assert(p.state_changes[i] == changes[a] && p.state_changes[j] == changes[b]);
        crate::textmap::law_order_is_total(lowercase(changes[a].file), lowercase(changes[b].file));
        assert(marks[a] == (0u64, lowercase(changes[a].file)) && marks[b] == (
            0u64,
            lowercase(changes[b].file),
        ));
    }
}

proof fn lemma_in_sequence<A, B>(s: Seq<A>, f: spec_fn(A) -> Option<B>, p: int, q: int) -> (r: (
    int,
    int,
))
    requires
        0 <= p < q < collected(s, f).len(),
    ensures
        0 <= r.0 < r.1 < s.len(),
        f(s[r.0]) == Some(collected(s, f)[p]),
        f(s[r.1]) == Some(collected(s, f)[q]),
    decreases s.len(),
{
    let init = s.drop_last();
    let less = collected(init, f);
    if q < less.len() {
        lemma_in_sequence(init, f, p, q)
    } else {
        let a = lemma_collected_at(init, f, p);
        (a, s.len() - 1)
    }
}

proof fn lemma_collected_at<A, B>(s: Seq<A>, f: spec_fn(A) -> Option<B>, p: int) -> (r: int)
    requires
        0 <= p < collected(s, f).len(),
    ensures
        0 <= r < s.len(),
        f(s[r]) == Some(collected(s, f)[p]),
    decreases s.len(),
{
    let init = s.drop_last();
    if p < collected(init, f).len() {
        lemma_collected_at(init, f, p)
    } else {
        s.len() - 1
    }
}

/// The mods that are added are listed by what they are matched by.
pub proof fn law_added_mods_are_listed_in_order(
    base: Seq<Seq<char>>,
    ours: Seq<(Seq<char>, u64)>,
    theirs: Seq<Seq<char>>,
    i: int,
    j: int,
)
    requires
        0 <= i < j < plan_of(base, ours, theirs).added.len(),
    ensures
        ({
            let added = plan_of(base, ours, theirs).added;
            !crate::text::before(key_of(added[j]), key_of(added[i]))
        }),
{
    let os = entry_keys(ours);
    let f = |x: Seq<char>| as_added(os, x);
    let walk = by_mod(theirs);
    let added = plan_of(base, ours, theirs).added;
    assert(added == collected(walk, f));
    let (a, b) = lemma_in_sequence(walk, f, i, j);
    assert(as_added(os, walk[a]) == Some(added[i]) && as_added(os, walk[b]) == Some(added[j]));
    let keys = sort_keys(theirs);
    let order = crate::order::order_of(keys);
    crate::order::law_sorting_keeps_every_item(keys);
    crate::order::law_sorting_is_stable(keys);
    assert(order.contains(order[a]) && order.contains(order[b]));
    assert(walk[a] == theirs[order[a]] && walk[b] == theirs[order[b]]);
    assert(keys[order[a]] == (0u64, key_of(walk[a])) && keys[order[b]] == (
        0u64,
        key_of(walk[b]),
    ));
    crate::textmap::law_order_is_total(key_of(walk[a]), key_of(walk[b]));
}

// ---------------------------------------------------------------------------
// Laws on what the calls give
// ---------------------------------------------------------------------------

/// Two files that differ in the version alone have one key, which is the lower-case name
/// in front of it; so has a file without a version.
pub proof fn law_one_key_for_every_version(
    file: &str,
    front: Seq<char>,
    version: Seq<char>,
    tail: Seq<char>,
    ending: Seq<char>,
    r: String,
)
    requires
        call_ensures(mod_key, (file,), r),
        !holds_version(front),
        numbered(version),
        tail.len() == 0 || tail[0] == '-',
        ending == ".jar"@ || ending == ".litemod"@,
        file@ == front + "-"@ + version + tail + ending || file@ == front + "-"@ + version + tail
            + ending + ".disabled"@ || file@ == front + ending || file@ == front + ending
            + ".disabled"@,
    ensures
        r@ == lowercase(front),
{
    law_the_key_is_the_name_in_front_of_the_version(front, version, tail, ending);
}

/// A file with the suffix that turns it off has the rest as its name, and any other file
/// is on under its own.
pub proof fn law_which_files_are_off(file: &str, name: Seq<char>, r: (&str, bool))
    requires
        call_ensures(split_disabled, (file,), r),
    ensures
        file@ == name + ".disabled"@ ==> r.0@ == name && !r.1,
        !".disabled"@.is_suffix_of(file@) ==> r.0@ == file@ && r.1,
{
    crate::text::law_stripping(name, ".disabled"@);
}

/// The plan for the mods is the one that the laws on mods speak of, and its counts are
/// those of its lists.
pub proof fn law_what_planning_gives(
    base: TextMap<u64>,
    ours: TextMap<u64>,
    theirs: TextMap<u64>,
    r: ModPlan,
    off: usize,
    on: usize,
    removed: usize,
    extra: usize,
)
    requires
        call_ensures(plan, (&base, &ours, &theirs), r),
        call_ensures(ModPlan::disabled_count, (&r,), off),
        call_ensures(ModPlan::reenabled_count, (&r,), on),
        call_ensures(ModPlan::removed_count, (&r,), removed),
        call_ensures(ModPlan::extra_count, (&r,), extra),
    ensures
        r@ == plan_of(base.keys(), ours.pairs(), theirs.keys()),
        off == count(r.state_changes@, |c: ModStateChange| !c.enable),
        on == count(r.state_changes@, |c: ModStateChange| c.enable),
        removed == count(r.decisions@, |d: ModDecision| d.kind == ModKind::RemovedByPack),
        extra == count(r.decisions@, |d: ModDecision| d.kind == ModKind::UserAdded),
        off + on == r.state_changes.len(),
        removed + extra == r.decisions.len(),
{
    let p = |c: ModStateChange| c.enable == false;
    let q = |c: ModStateChange| c.enable == true;
    let p2 = |c: ModStateChange| !c.enable;
    let q2 = |c: ModStateChange| c.enable;
    lemma_counts_agree(r.state_changes@, p, p2);
    lemma_counts_agree(r.state_changes@, q, q2);
    lemma_either(r.state_changes@, p, q);
    lemma_either(
        r.decisions@,
        |d: ModDecision| d.kind == ModKind::RemovedByPack,
        |d: ModDecision| d.kind == ModKind::UserAdded,
    );
}

proof fn lemma_counts_agree<T>(s: Seq<T>, p: spec_fn(T) -> bool, q: spec_fn(T) -> bool)
    requires
        forall|x: T| #[trigger] p(x) == q(x),
    ensures
        count(s, p) == count(s, q),
    decreases s.len(),
{
    if s.len() > 0 {
        lemma_counts_agree(s.drop_last(), p, q);
        assert(p(s.last()) == q(s.last()));
    }
}

proof fn lemma_either<T>(s: Seq<T>, p: spec_fn(T) -> bool, q: spec_fn(T) -> bool)
    requires
        forall|x: T| #[trigger] p(x) == !q(x),
    ensures
        count(s, p) + count(s, q) == s.len(),
    decreases s.len(),
{
    if s.len() > 0 {
        lemma_either(s.drop_last(), p, q);
        assert(p(s.last()) == !q(s.last()));
    }
}

} // verus!
