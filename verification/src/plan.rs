//! Turning "old instance" + "new pack" + "what the old pack shipped" into a
//! concrete list of things to do.
//!
//! The rule for every path is the same three-way question git asks: if you did
//! not touch a file, take the pack's version; if the pack did not touch it, keep
//! yours; if you both did, merge the lines and only stop for real collisions.
use vstd::prelude::*;
use vstd::string::*;
use vstd::utf8::*;

use crate::merge::{
    diff3, fresh_merge, three_way, Choice, Hunk, HunkView, MergeOutcome, MergeView, Segment, SegmentView,
    TextMerge,
};
use crate::mods::{collected, count, pair_views, plan_of, ModPlan, ModPlanView};
use crate::order::{sort_by_keys, sorted, SortKey};
pub use crate::snapshot::{write_base_snapshot, BaseSource, NoBase, RemoteBase, SnapshotBase};
use crate::text::{cut_once, ends_with, same, split_once, starts_with, texts, utf8_text};
use crate::textmap::{entry_keys, ordered, TextMap};
use crate::util::{is_text, mergeable, norm_path};

verus! {

/// Files bigger than this are not snapshotted as a merge base; a config that
/// large is not something anyone hand-edits.
pub const MAX_BASE_FILE: u64 = 33_554_432;

/// Loose files directly in `.minecraft` (`options.txt`, `servers.dat`, …) are
/// collected into one entry instead of a row each.
pub const LOOSE_FILES_GROUP: &'static str = "(loose files)";

// ---------------------------------------------------------------------------
// Types
// ---------------------------------------------------------------------------

#[derive(Debug, Clone)]
pub struct ConflictFile {
    pub rel: String,
    pub merge: TextMerge,
    /// The original version could not be recovered, so this is a straight
    /// yours-or-theirs choice rather than a real three-way merge.
    pub no_base: bool,
    pub reviewed: bool,
}

#[derive(Debug, Clone)]
pub struct BinaryConflict {
    pub rel: String,
    pub ours_size: u64,
    pub theirs_size: u64,
    pub take_pack: bool,
}

/// A top-level folder or file that only exists in the old instance.
#[derive(Debug, Clone)]
pub struct CarryGroup {
    pub name: String,
    pub files: Vec<String>,
    pub bytes: u64,
    pub enabled: bool,
}

#[derive(Debug)]
pub struct Plan {
    /// Merged cleanly; write the result over the extracted pack file.
    pub auto_merged: Vec<(String, String)>,
    /// Needs a decision from the user.
    pub conflicts: Vec<ConflictFile>,
    pub binary_conflicts: Vec<BinaryConflict>,
    /// You edited it, the pack did not: copy the old file across.
    pub keep_yours: Vec<String>,
    /// The pack changed it and you did not: leave the extracted file alone.
    pub take_pack: usize,
    /// Byte-identical on both sides.
    pub identical: usize,
    pub carry: Vec<CarryGroup>,
    pub mods: ModPlan,
    /// Set when no pristine copy of the installed version was available.
    pub base_missing: bool,
}

/// A conflict as texts.
pub struct ConflictView {
    pub rel: Seq<char>,
    pub merge: MergeView,
    pub no_base: bool,
    pub reviewed: bool,
}

/// A binary conflict as texts.
pub struct BinaryView {
    pub rel: Seq<char>,
    pub ours_size: int,
    pub theirs_size: int,
    pub take_pack: bool,
}

/// A group as texts.
pub struct CarryView {
    pub name: Seq<char>,
    pub files: Seq<Seq<char>>,
    pub bytes: int,
    pub enabled: bool,
}

/// A plan as texts.
pub struct PlanView {
    pub auto_merged: Seq<(Seq<char>, Seq<char>)>,
    pub conflicts: Seq<ConflictView>,
    pub binary_conflicts: Seq<BinaryView>,
    pub keep_yours: Seq<Seq<char>>,
    pub take_pack: int,
    pub identical: int,
    pub carry: Seq<CarryView>,
    pub mods: ModPlanView,
    pub base_missing: bool,
}

impl View for ConflictFile {
    type V = ConflictView;

    open spec fn view(&self) -> ConflictView {
        ConflictView {
            rel: self.rel@,
            merge: self.merge@,
            no_base: self.no_base,
            reviewed: self.reviewed,
        }
    }
}

impl View for BinaryConflict {
    type V = BinaryView;

    open spec fn view(&self) -> BinaryView {
        BinaryView {
            rel: self.rel@,
            ours_size: self.ours_size as int,
            theirs_size: self.theirs_size as int,
            take_pack: self.take_pack,
        }
    }
}

impl View for CarryGroup {
    type V = CarryView;

    open spec fn view(&self) -> CarryView {
        CarryView {
            name: self.name@,
            files: texts(self.files@),
            bytes: self.bytes as int,
            enabled: self.enabled,
        }
    }
}

pub open spec fn conflict_views(s: Seq<ConflictFile>) -> Seq<ConflictView> {
    s.map_values(|c: ConflictFile| c@)
}

pub open spec fn binary_views(s: Seq<BinaryConflict>) -> Seq<BinaryView> {
    s.map_values(|c: BinaryConflict| c@)
}

pub open spec fn carry_views(s: Seq<CarryGroup>) -> Seq<CarryView> {
    s.map_values(|g: CarryGroup| g@)
}

impl View for Plan {
    type V = PlanView;

    open spec fn view(&self) -> PlanView {
        PlanView {
            auto_merged: pair_views(self.auto_merged@),
            conflicts: conflict_views(self.conflicts@),
            binary_conflicts: binary_views(self.binary_conflicts@),
            keep_yours: texts(self.keep_yours@),
            take_pack: self.take_pack as int,
            identical: self.identical as int,
            carry: carry_views(self.carry@),
            mods: self.mods@,
            base_missing: self.base_missing,
        }
    }
}

/// A plan that says nothing yet.
pub open spec fn empty_plan() -> PlanView {
    PlanView {
        auto_merged: Seq::empty(),
        conflicts: Seq::empty(),
        binary_conflicts: Seq::empty(),
        keep_yours: Seq::empty(),
        take_pack: 0,
        identical: 0,
        carry: Seq::empty(),
        mods: ModPlanView {
            decisions: Seq::empty(),
            updated: Seq::empty(),
            added: Seq::empty(),
            unchanged: 0,
            state_changes: Seq::empty(),
        },
        base_missing: false,
    }
}

impl Default for Plan {
    fn default() -> (r: Self)
        ensures
            r@ == empty_plan(),
    {
        let r = Plan {
            auto_merged: Vec::new(),
            conflicts: Vec::new(),
            binary_conflicts: Vec::new(),
            keep_yours: Vec::new(),
            take_pack: 0,
            identical: 0,
            carry: Vec::new(),
            mods: ModPlan::default(),
            base_missing: false,
        };
        proof {
            assert(r@.auto_merged =~= Seq::empty());
            assert(r@.conflicts =~= Seq::empty());
            assert(r@.binary_conflicts =~= Seq::empty());
            assert(r@.keep_yours =~= Seq::empty());
            assert(r@.carry =~= Seq::empty());
        }
        r
    }
}

/// The bytes of the groups that are carried over.
pub open spec fn enabled_bytes(groups: Seq<CarryView>) -> int
    decreases groups.len(),
{
    if groups.len() == 0 {
        0
    } else {
        enabled_bytes(groups.drop_last()) + if groups.last().enabled {
            groups.last().bytes
        } else {
            0
        }
    }
}

proof fn lemma_enabled_bytes(groups: Seq<CarryGroup>, i: int)
    requires
        0 <= i <= groups.len(),
    ensures
        0 <= enabled_bytes(carry_views(groups).take(i)) <= enabled_bytes(carry_views(groups)),
    decreases groups.len() - i,
{
    let all = carry_views(groups);
    if i < groups.len() {
        lemma_enabled_bytes(groups, i + 1);
        assert(all.take(i + 1).drop_last() =~= all.take(i));
        assert(all.take(i + 1).last() == groups[i]@);
        lemma_enabled_bytes_nonneg(groups.take(i));
        assert(carry_views(groups.take(i)) =~= all.take(i));
    } else {
        assert(all.take(i) =~= all);
        lemma_enabled_bytes_nonneg(groups);
    }
}

proof fn lemma_enabled_bytes_nonneg(groups: Seq<CarryGroup>)
    ensures
        0 <= enabled_bytes(carry_views(groups)),
    decreases groups.len(),
{
    if groups.len() > 0 {
        lemma_enabled_bytes_nonneg(groups.drop_last());
        assert(carry_views(groups).drop_last() =~= carry_views(groups.drop_last()));
    }
}

impl Plan {
    /// How many conflicts nobody has looked at yet.
    pub fn unresolved(&self) -> (r: usize)
        ensures
            r == count(self@.conflicts, |c: ConflictView| !c.reviewed),
    {
        let mut n: usize = 0;
        let mut i: usize = 0;
        let ghost p = |c: ConflictView| !c.reviewed;
        let ghost all = self@.conflicts;
        assert(all.take(0) =~= Seq::empty());
        while i < self.conflicts.len()
            invariant
                p == (|c: ConflictView| !c.reviewed),
                all == self@.conflicts,
                n <= i <= self.conflicts.len(),
                n == count(all.take(i as int), p),
            decreases self.conflicts.len() - i,
        {
            assert(all.take(i + 1).drop_last() =~= all.take(i as int));
            assert(all.take(i + 1).last() == self.conflicts@[i as int]@);
            if !self.conflicts[i].reviewed {
                n += 1;
            }
            i += 1;
        }
        assert(all.take(i as int) =~= all);
        n
    }

    /// The bytes of the groups that are carried over.
    pub fn carry_bytes(&self) -> (r: u64)
        requires
            enabled_bytes(self@.carry) <= u64::MAX,
        ensures
            r == enabled_bytes(self@.carry),
    {
        let mut n: u64 = 0;
        let mut i: usize = 0;
        let ghost all = self@.carry;
        assert(all.take(0) =~= Seq::empty());
        while i < self.carry.len()
            invariant
                all == self@.carry,
                enabled_bytes(all) <= u64::MAX,
                i <= self.carry.len(),
                n == enabled_bytes(all.take(i as int)),
            decreases self.carry.len() - i,
        {
            proof {
                assert(all.take(i + 1).drop_last() =~= all.take(i as int));
                assert(all.take(i + 1).last() == self.carry@[i as int]@);
                lemma_enabled_bytes(self.carry@, i + 1);
            }
            if self.carry[i].enabled {
                n += self.carry[i].bytes;
            }
            i += 1;
        }
        assert(all.take(i as int) =~= all);
        n
    }
}

// ---------------------------------------------------------------------------
// One file
// ---------------------------------------------------------------------------

/// One bit of a division by the CRC-32 polynomial, lowest bit first.
pub open spec fn crc_bit(c: u32) -> u32 {
    if c & 1 == 1 {
        (c >> 1) ^ 0xEDB8_8320
    } else {
        c >> 1
    }
}

pub open spec fn crc_bits(c: u32, n: nat) -> u32
    decreases n,
{
    if n == 0 {
        c
    } else {
        crc_bit(crc_bits(c, (n - 1) as nat))
    }
}

/// The remainder behind these bytes, from a register of ones.
pub open spec fn crc_register(bytes: Seq<u8>) -> u32
    decreases bytes.len(),
{
    if bytes.len() == 0 {
        0xFFFF_FFFF
    } else {
        crc_bits(crc_register(bytes.drop_last()) ^ (bytes.last() as u32), 8)
    }
}

/// The CRC-32 (IEEE) of the bytes, the checksum that zips use.
pub open spec fn crc32_of(bytes: Seq<u8>) -> u32 {
    crc_register(bytes) ^ 0xFFFF_FFFF
}

/// `crc32fast::hash` gives the CRC-32 (IEEE) of the bytes.
#[verifier::external_body]
pub(crate) fn checksum(bytes: &[u8]) -> (r: u32)
    ensures
        r == crc32_of(bytes@),
{
    crc32fast::hash(bytes)
}

/// The CRC-32 of a file's bytes.
pub fn crc32(bytes: &[u8]) -> (r: u32)
    ensures
        r == crc32_of(bytes@),
{
    checksum(bytes)
}

/// What is to happen to a file that both sides have.
#[derive(Debug)]
pub enum Verdict {
    /// Byte-identical on both sides.
    Identical,
    /// Untouched by you: the extracted file already wins.
    TakePack,
    /// Untouched by the pack.
    KeepYours,
    /// Both changed it, in different places.
    Merged(String),
    /// Both changed it, and somebody has to choose.
    Conflict { merge: TextMerge, no_base: bool },
    /// Both changed it, and it is not text.
    Binary { ours_size: u64, theirs_size: u64 },
}

/// A verdict as texts.
pub enum VerdictView {
    Identical,
    TakePack,
    KeepYours,
    Merged(Seq<char>),
    Conflict { merge: MergeView, no_base: bool },
    Binary { ours_size: int, theirs_size: int },
}

impl View for Verdict {
    type V = VerdictView;

    open spec fn view(&self) -> VerdictView {
        match *self {
            Verdict::Identical => VerdictView::Identical,
            Verdict::TakePack => VerdictView::TakePack,
            Verdict::KeepYours => VerdictView::KeepYours,
            Verdict::Merged(text) => VerdictView::Merged(text@),
            Verdict::Conflict { merge, no_base } => VerdictView::Conflict { merge: merge@, no_base },
            Verdict::Binary { ours_size, theirs_size } => VerdictView::Binary {
                ours_size: ours_size as int,
                theirs_size: theirs_size as int,
            },
        }
    }
}

/// What the two files and the checksum of the original settle, without the
/// original itself.
pub open spec fn early_verdict(
    ours: Seq<u8>,
    theirs: Seq<u8>,
    digest: Option<u32>,
) -> Option<VerdictView> {
    if ours == theirs {
        Some(VerdictView::Identical)
    } else if digest == Some(crc32_of(ours)) {
        Some(VerdictView::TakePack)
    } else if digest == Some(crc32_of(theirs)) {
        Some(VerdictView::KeepYours)
    } else {
        None
    }
}

/// A file that differs with no known original: one conflict covering everything.
pub open spec fn whole_file(ours: Seq<char>, theirs: Seq<char>) -> MergeView {
    MergeView {
        segments: seq![SegmentView::Conflict { ours, base: Seq::empty(), theirs }],
        hunks: seq![
            HunkView {
                ours,
                base: Seq::empty(),
                theirs,
                choice: Choice::Theirs,
                custom: Seq::empty(),
            },
        ],
        manual: None,
    }
}

pub open spec fn merge_verdict(merged: Result<Seq<char>, Seq<SegmentView>>) -> VerdictView {
    match merged {
        Ok(text) => VerdictView::Merged(text),
        Err(segments) => VerdictView::Conflict { merge: fresh_merge(segments), no_base: false },
    }
}

/// What two different files come to, given the original where it is known.
pub open spec fn late_verdict(ours: Seq<u8>, theirs: Seq<u8>, base: Option<Seq<u8>>) -> VerdictView {
    let binary = VerdictView::Binary {
        ours_size: ours.len() as int,
        theirs_size: theirs.len() as int,
    };
    match base {
        None => if mergeable(ours) && mergeable(theirs) {
            VerdictView::Conflict {
                merge: whole_file(decode_utf8(ours), decode_utf8(theirs)),
                no_base: true,
            }
        } else {
            binary
        },
        Some(b) => if ours == b {
            VerdictView::TakePack
        } else if theirs == b {
            VerdictView::KeepYours
        } else if mergeable(b) && mergeable(ours) && mergeable(theirs) {
            merge_verdict(diff3(decode_utf8(b), decode_utf8(ours), decode_utf8(theirs)))
        } else {
            binary
        },
    }
}

/// What is to happen to a file, given all there is to know.
pub open spec fn verdict(
    ours: Seq<u8>,
    theirs: Seq<u8>,
    digest: Option<u32>,
    base: Option<Seq<u8>>,
) -> VerdictView {
    match early_verdict(ours, theirs, digest) {
        Some(v) => v,
        None => late_verdict(ours, theirs, base),
    }
}

fn same_bytes(a: &Vec<u8>, b: &Vec<u8>) -> (r: bool)
    ensures
        r == (a@ == b@),
{
    if a.len() != b.len() {
        return false;
    }
    let mut i: usize = 0;
    while i < a.len()
        invariant
            a.len() == b.len(),
            i <= a.len(),
            forall|j: int| 0 <= j < i ==> #[trigger] a@[j] == b@[j],
        decreases a.len() - i,
    {
        if a[i] != b[i] {
            return false;
        }
        i += 1;
    }
    assert(a@ =~= b@);
    true
}

/// The text of mergeable bytes.
fn mergeable_text(bytes: &Vec<u8>) -> (r: Option<String>)
    ensures
        r is Some <==> mergeable(bytes@),
        r matches Some(t) ==> t@ == decode_utf8(bytes@),
{
    if is_text(bytes.as_slice()) {
        utf8_text(bytes.as_slice())
    } else {
        None
    }
}

fn whole_file_choice(ours: &str, theirs: &str) -> (r: TextMerge)
    ensures
        r@ == whole_file(ours@, theirs@),
{
    let mut segments: Vec<Segment> = Vec::new();
    segments.push(
        Segment::Conflict {
            ours: ours.to_owned(),
            base: String::new(),
            theirs: theirs.to_owned(),
        },
    );
    let mut hunks: Vec<Hunk> = Vec::new();
    hunks.push(
        Hunk {
            ours: ours.to_owned(),
            base: String::new(),
            theirs: theirs.to_owned(),
            choice: Choice::Theirs,
            custom: String::new(),
        },
    );
    let r = TextMerge { segments, hunks, manual: None };
    proof {
        assert(r@.segments =~= whole_file(ours@, theirs@).segments);
        assert(r@.hunks =~= whole_file(ours@, theirs@).hunks);
    }
    r
}

/// What can be settled without the original. A cheap checksum settles most files
/// without reading the original at all, which matters when the original lives
/// behind HTTP range requests.
pub fn settle(ours: &Vec<u8>, theirs: &Vec<u8>, digest: Option<u32>) -> (r: Option<Verdict>)
    ensures
        r is Some <==> early_verdict(ours@, theirs@, digest) is Some,
        r matches Some(v) ==> early_verdict(ours@, theirs@, digest) == Some(v@),
{
    if same_bytes(ours, theirs) {
        return Some(Verdict::Identical);
    }
    if let Some(base_crc) = digest {
        if checksum(ours.as_slice()) == base_crc {
            return Some(Verdict::TakePack);
        }
        if checksum(theirs.as_slice()) == base_crc {
            return Some(Verdict::KeepYours);
        }
    }
    None
}

/// Settle two different files by the original, where it could be had.
pub fn settle_by_original(ours: &Vec<u8>, theirs: &Vec<u8>, base: Option<&Vec<u8>>) -> (r: Verdict)
    ensures
        r@ == late_verdict(
            ours@,
            theirs@,
            match base {
                Some(b) => Some(b@),
                None => None,
            },
        ),
{
    let binary = Verdict::Binary {
        ours_size: ours.len() as u64,
        theirs_size: theirs.len() as u64,
    };
    match base {
        None => {
            match (mergeable_text(ours), mergeable_text(theirs)) {
                (Some(o), Some(t)) => Verdict::Conflict {
                    merge: whole_file_choice(o.as_str(), t.as_str()),
                    no_base: true,
                },
                _ => binary,
            }
        },
        Some(b) => {
            if same_bytes(ours, b) {
                return Verdict::TakePack;
            }
            if same_bytes(theirs, b) {
                return Verdict::KeepYours;
            }
            match (mergeable_text(b), mergeable_text(ours), mergeable_text(theirs)) {
                (Some(b), Some(o), Some(t)) => {
                    match three_way(b.as_str(), o.as_str(), t.as_str()) {
                        MergeOutcome::Clean(text) => Verdict::Merged(text),
                        MergeOutcome::Conflicted(merge) => Verdict::Conflict { merge, no_base: false },
                    }
                },
                _ => binary,
            }
        },
    }
}

// ---------------------------------------------------------------------------
// Paths
// ---------------------------------------------------------------------------

/// Jars are decided by the mod plan.
pub open spec fn is_mod(rel: Seq<char>) -> bool {
    &&& crate::text::strip_prefix(rel, "mods/"@) is Some
    &&& crate::text::strip_suffix(rel, ".jar"@) is Some || crate::text::strip_suffix(
        rel,
        ".litemod"@,
    ) is Some || crate::text::strip_suffix(rel, ".jar.disabled"@) is Some
}

pub fn is_mod_file(rel: &str) -> (r: bool)
    ensures
        r == is_mod(rel@),
{
    starts_with(rel, "mods/") && (ends_with(rel, ".jar") || ends_with(rel, ".litemod") || ends_with(
        rel,
        ".jar.disabled",
    ))
}

/// The part of a path in front of its first slash.
pub open spec fn top_of(rel: Seq<char>) -> Seq<char> {
    match split_once(rel, '/') {
        Some((dir, _)) => dir,
        None => rel,
    }
}

/// The group a path is listed under.
pub open spec fn group_of(rel: Seq<char>) -> Seq<char> {
    match split_once(rel, '/') {
        Some((dir, _)) => dir,
        None => "(loose files)"@,
    }
}

/// Never carried over from the old instance: noise, or updater bookkeeping.
pub open spec fn is_noise(top: Seq<char>) -> bool {
    top == "logs"@ || top == "crash-reports"@ || top == ".gtnh-updater"@ || top == ".fabric"@ || top
        == "usercache.json"@ || top == "usernamecache.json"@
}

/// A file that only the old instance has and that moves to the new one as it is.
pub open spec fn is_carried(rel: Seq<char>, theirs: Seq<Seq<char>>) -> bool {
    !theirs.contains(rel) && !is_mod(rel) && !is_noise(top_of(rel))
}

fn carry_group_name(rel: &str) -> (r: String)
    ensures
        r@ == group_of(rel@),
{
    match cut_once(rel, '/') {
        Some((dir, _)) => dir,
        None => LOOSE_FILES_GROUP.to_owned(),
    }
}

fn skipped(rel: &str) -> (r: bool)
    ensures
        r == is_noise(top_of(rel@)),
{
    let top = match cut_once(rel, '/') {
        Some((dir, _)) => dir,
        None => rel.to_owned(),
    };
    let top = top.as_str();
    same(top, "logs") || same(top, "crash-reports") || same(top, ".gtnh-updater") || same(
        top,
        ".fabric",
    ) || same(top, "usercache.json") || same(top, "usernamecache.json")
}

/// The files of a list with their sizes, each under its normalised path.
pub open spec fn normalised(found: Seq<(String, u64)>) -> Seq<(Seq<char>, u64)> {
    found.map_values(
        |e: (String, u64)| (crate::util::without_dots(crate::util::forward_slashes(e.0@)), e.1),
    )
}

/// Index every file of a tree, keyed by its path relative to the root.
pub fn index_tree(found: Vec<(String, u64)>) -> (r: TextMap<u64>)
    ensures
        r.wf(),
        r.holds(normalised(found@)),
{
    let mut out: TextMap<u64> = TextMap::new();
    let ghost all = normalised(found@);
    let mut i: usize = 0;
    assert(all.take(0) =~= Seq::empty());
    while i < found.len()
        invariant
            all == normalised(found@),
            i <= found.len(),
            out.wf(),
            out.holds(all.take(i as int)),
        decreases found.len() - i,
    {
        let rel = norm_path(found[i].0.as_str());
        let ghost prev = out;
        let ghost relv = rel@;
        let size = found[i].1;
        out.insert(rel, size);
        proof {
            crate::textmap::lemma_holds(prev, out, all.take(i as int), relv, size);
            assert(all.take(i + 1) =~= all.take(i as int).push((relv, size)));
        }
        i += 1;
    }
    assert(all.take(i as int) =~= all);
    out
}

// ---------------------------------------------------------------------------
// Files only the old instance has
// ---------------------------------------------------------------------------

pub open spec fn if_carried(e: (Seq<char>, u64), theirs: Seq<Seq<char>>) -> Option<
    (Seq<char>, u64),
> {
    if is_carried(e.0, theirs) {
        Some(e)
    } else {
        None
    }
}

/// What is carried over, in order.
pub open spec fn carried_files(
    ours: Seq<(Seq<char>, u64)>,
    theirs: Seq<Seq<char>>,
) -> Seq<(Seq<char>, u64)> {
    collected(ours, |e: (Seq<char>, u64)| if_carried(e, theirs))
}

pub open spec fn if_in_group(e: (Seq<char>, u64), group: Seq<char>) -> Option<Seq<char>> {
    if group_of(e.0) == group {
        Some(e.0)
    } else {
        None
    }
}

pub open spec fn files_in(files: Seq<(Seq<char>, u64)>, group: Seq<char>) -> Seq<Seq<char>> {
    collected(files, |e: (Seq<char>, u64)| if_in_group(e, group))
}

/// The bytes of the files of a group.
pub open spec fn bytes_in(files: Seq<(Seq<char>, u64)>, group: Seq<char>) -> int
    decreases files.len(),
{
    if files.len() == 0 {
        0
    } else {
        bytes_in(files.drop_last(), group) + if group_of(files.last().0) == group {
            files.last().1 as int
        } else {
            0
        }
    }
}

pub open spec fn group_names(files: Seq<(Seq<char>, u64)>) -> Seq<Seq<char>> {
    ordered(files.map_values(|e: (Seq<char>, u64)| group_of(e.0)))
}

/// The group of that name.
pub open spec fn group_view(files: Seq<(Seq<char>, u64)>, name: Seq<char>) -> CarryView {
    CarryView {
        name,
        files: files_in(files, name),
        bytes: bytes_in(files, name),
        enabled: true,
    }
}

pub open spec fn groups_of(files: Seq<(Seq<char>, u64)>) -> Seq<CarryView> {
    group_names(files).map_values(|name: Seq<char>| group_view(files, name))
}

/// The biggest group comes first.
pub open spec fn size_keys(groups: Seq<CarryView>) -> Seq<(u64, Seq<char>)> {
    groups.map_values(|g: CarryView| ((u64::MAX - g.bytes) as u64, Seq::<char>::empty()))
}

/// The groups of what is carried over, the biggest first and those of one size by
/// name.
pub open spec fn carry_of(ours: Seq<(Seq<char>, u64)>, theirs: Seq<Seq<char>>) -> Seq<CarryView> {
    let groups = groups_of(carried_files(ours, theirs));
    sorted(groups, size_keys(groups))
}

/// The bytes of each group can be counted.
pub open spec fn countable(ours: Seq<(Seq<char>, u64)>, theirs: Seq<Seq<char>>) -> bool {
    forall|name: Seq<char>| #[trigger] bytes_in(carried_files(ours, theirs), name) <= u64::MAX
}

pub proof fn lemma_bytes_in(files: Seq<(Seq<char>, u64)>, group: Seq<char>)
    ensures
        0 <= bytes_in(files, group),
    decreases files.len(),
{
    if files.len() > 0 {
        lemma_bytes_in(files.drop_last(), group);
    }
}

proof fn lemma_bytes_grow(files: Seq<(Seq<char>, u64)>, group: Seq<char>, i: int)
    requires
        0 <= i <= files.len(),
    ensures
        0 <= bytes_in(files.take(i), group) <= bytes_in(files, group),
    decreases files.len() - i,
{
    lemma_bytes_in(files.take(i), group);
    if i < files.len() {
        lemma_bytes_grow(files, group, i + 1);
        assert(files.take(i + 1).drop_last() =~= files.take(i));
    } else {
        assert(files.take(i) =~= files);
    }
}

pub open spec fn file_views(s: Seq<(String, u64)>) -> Seq<(Seq<char>, u64)> {
    s.map_values(|e: (String, u64)| (e.0@, e.1))
}

/// The files that move as they are.
fn carried(ours: &TextMap<u64>, theirs: &TextMap<u64>) -> (r: Vec<(String, u64)>)
    requires
        theirs.wf(),
    ensures
        file_views(r@) == carried_files(ours.pairs(), theirs.keys()),
{
    let mut out: Vec<(String, u64)> = Vec::new();
    let ghost all = ours.pairs();
    let ghost f = |e: (Seq<char>, u64)| if_carried(e, theirs.keys());
    let mut i: usize = 0;
    proof {
        assert(all.take(0) =~= Seq::empty());
        assert(file_views(out@) =~= Seq::empty());
    }
    while i < ours.entries.len()
        invariant
            all == ours.pairs(),
            theirs.wf(),
            f == (|e: (Seq<char>, u64)| if_carried(e, theirs.keys())),
            i <= ours.entries.len(),
            file_views(out@) == collected(all.take(i as int), f),
        decreases ours.entries.len() - i,
    {
        let ghost o0 = file_views(out@);
        proof {
            assert(all.take(i + 1).drop_last() =~= all.take(i as int));
            assert(all.take(i + 1).last() == (ours.entries@[i as int].0@, ours.entries@[i as int].1));
        }
        let rel = ours.entries[i].0.as_str();
        if !theirs.contains_key(rel) && !is_mod_file(rel) && !skipped(rel) {
            out.push((ours.entries[i].0.clone(), ours.entries[i].1));
            assert(file_views(out@) =~= o0.push(all[i as int]));
        }
        i += 1;
    }
    assert(all.take(i as int) =~= all);
    out
}

/// The files of one group.
fn gather(files: &Vec<(String, u64)>, name: &str) -> (r: CarryGroup)
    requires
        bytes_in(file_views(files@), name@) <= u64::MAX,
    ensures
        r@ == group_view(file_views(files@), name@),
{
    let ghost all = file_views(files@);
    let ghost f = |e: (Seq<char>, u64)| if_in_group(e, name@);
    let mut out: Vec<String> = Vec::new();
    let mut bytes: u64 = 0;
    let mut i: usize = 0;
    proof {
        assert(all.take(0) =~= Seq::empty());
        assert(texts(out@) =~= Seq::empty());
    }
    while i < files.len()
        invariant
            all == file_views(files@),
            f == (|e: (Seq<char>, u64)| if_in_group(e, name@)),
            bytes_in(all, name@) <= u64::MAX,
            i <= files.len(),
            texts(out@) == collected(all.take(i as int), f),
            bytes == bytes_in(all.take(i as int), name@),
        decreases files.len() - i,
    {
        let ghost o0 = texts(out@);
        proof {
            assert(all.take(i + 1).drop_last() =~= all.take(i as int));
            assert(all.take(i + 1).last() == (files@[i as int].0@, files@[i as int].1));
            lemma_bytes_grow(all, name@, i + 1);
        }
        let group = carry_group_name(files[i].0.as_str());
        if same(group.as_str(), name) {
            out.push(files[i].0.clone());
            bytes += files[i].1;
            assert(texts(out@) =~= o0.push(all[i as int].0));
        }
        i += 1;
    }
    assert(all.take(i as int) =~= all);
    CarryGroup { name: name.to_owned(), files: out, bytes, enabled: true }
}

/// Group what only the old instance has.
fn carry_groups(ours: &TextMap<u64>, theirs: &TextMap<u64>) -> (r: Vec<CarryGroup>)
    requires
        theirs.wf(),
        countable(ours.pairs(), theirs.keys()),
    ensures
        carry_views(r@) == carry_of(ours.pairs(), theirs.keys()),
{
    let files = carried(ours, theirs);
    let ghost all = file_views(files@);
    let mut names: TextMap<bool> = TextMap::new();
    let ghost listed = all.map_values(|e: (Seq<char>, u64)| group_of(e.0));
    let mut i: usize = 0;
    assert(listed.take(0) =~= Seq::empty());
    while i < files.len()
        invariant
            all == file_views(files@),
            listed == all.map_values(|e: (Seq<char>, u64)| group_of(e.0)),
            i <= files.len(),
            names.wf(),
            names.keys() == ordered(listed.take(i as int)),
        decreases files.len() - i,
    {
        proof {
            assert(listed.take(i + 1).drop_last() =~= listed.take(i as int));
            assert(listed.take(i + 1).last() == group_of(files@[i as int].0@));
        }
        names.insert(carry_group_name(files[i].0.as_str()), true);
        i += 1;
    }
    assert(listed.take(i as int) =~= listed);
    let ghost wanted = groups_of(all);
    let mut groups: Vec<CarryGroup> = Vec::new();
    let mut keys: Vec<SortKey> = Vec::new();
    let mut k: usize = 0;
    while k < names.entries.len()
        invariant
            all == file_views(files@),
            forall|name: Seq<char>| #[trigger] bytes_in(all, name) <= u64::MAX,
            names.keys() == group_names(all),
            wanted == groups_of(all),
            k <= names.entries.len(),
            groups.len() == k,
            keys.len() == k,
            forall|j: int| 0 <= j < k ==> #[trigger] groups@[j]@ == wanted[j],
            forall|j: int| 0 <= j < k ==> #[trigger] keys@[j]@ == size_keys(wanted)[j],
        decreases names.entries.len() - k,
    {
        proof {
            assert(names.keys()[k as int] == names.entries@[k as int].0@);
            lemma_bytes_in(all, names.entries@[k as int].0@);
        }
        let group = gather(&files, names.entries[k].0.as_str());
        assert(group@ == wanted[k as int]);
        let key = SortKey { number: u64::MAX - group.bytes, text: String::new() };
        assert(key@ == size_keys(wanted)[k as int]);
        keys.push(key);
        groups.push(group);
        k += 1;
    }
    proof {
        assert(names.keys().len() == names.entries.len());
        assert(carry_views(groups@) =~= wanted);
        assert(crate::order::key_views(keys@) =~= size_keys(wanted));
        crate::order::lemma_sorted_map(groups@, size_keys(wanted), |g: CarryGroup| g@);
    }
    sort_by_keys(groups, keys)
}

// ---------------------------------------------------------------------------
// The scan
// ---------------------------------------------------------------------------

/// The trees to compare: every file of the old instance and of the new pack,
/// with its size.
pub struct BuildInput<'a> {
    pub ours: &'a TextMap<u64>,
    pub theirs: &'a TextMap<u64>,
}

pub open spec fn if_shared(rel: Seq<char>, ours: Seq<Seq<char>>) -> Option<Seq<char>> {
    if ours.contains(rel) {
        Some(rel)
    } else {
        None
    }
}

/// The files that both sides have, in order.
pub open spec fn shared_files(ours: Seq<Seq<char>>, theirs: Seq<Seq<char>>) -> Seq<Seq<char>> {
    collected(theirs, |rel: Seq<char>| if_shared(rel, ours))
}

/// What the scan waits for in the file it is at.
#[derive(Debug)]
enum Stage {
    /// To tell how far it has come.
    Report,
    /// The two versions of the file.
    Look,
    /// The original of a file of which these are the two versions.
    Ask { ours: Vec<u8>, theirs: Vec<u8> },
    /// To tell that all are compared.
    Close,
    /// Nothing: that has been told.
    Done,
    /// Nothing: the user does not want to go on.
    Cancelled,
}

/// A stage as bytes.
pub enum StageView {
    Report,
    Look,
    Ask { ours: Seq<u8>, theirs: Seq<u8> },
    Close,
    Done,
    Cancelled,
}

impl Stage {
    pub closed spec fn view(&self) -> StageView {
        match *self {
            Stage::Report => StageView::Report,
            Stage::Look => StageView::Look,
            Stage::Ask { ours, theirs } => StageView::Ask { ours: ours@, theirs: theirs@ },
            Stage::Close => StageView::Close,
            Stage::Done => StageView::Done,
            Stage::Cancelled => StageView::Cancelled,
        }
    }
}

/// The comparison of the two trees, file by file. It says what it wants to know
/// next, is told, and ends with the plan.
#[derive(Debug)]
pub struct Scan {
    shared: Vec<String>,
    next: usize,
    stage: Stage,
    plan: Plan,
}

/// A scan as texts and bytes.
pub struct ScanView {
    pub shared: Seq<Seq<char>>,
    pub next: int,
    pub stage: StageView,
    pub plan: PlanView,
}

impl View for Scan {
    type V = ScanView;

    closed spec fn view(&self) -> ScanView {
        ScanView {
            shared: texts(self.shared@),
            next: self.next as int,
            stage: self.stage@,
            plan: self.plan@,
        }
    }
}

/// What the scan wants.
#[derive(Debug)]
pub enum Action {
    /// Tell the user that `done` of `total` files are compared, and ask whether to
    /// go on.
    Report { done: usize, total: usize, label: String },
    /// Read both versions of the file, and look up the checksum of the original.
    Look(String),
    /// Get the original of the file.
    Ask(String),
    /// Nothing: every file is settled.
    Finish,
    /// Nothing: the user has cancelled.
    Cancelled,
}

/// What the scan is told.
#[derive(Debug)]
pub enum Event {
    /// The report was made, and the user lets it go on or does not.
    Reported(bool),
    /// Both versions of the file, and the checksum of the original if known.
    Looked { ours: Vec<u8>, theirs: Vec<u8>, digest: Option<u32> },
    /// The original of the file, if it can be had.
    Asked(Option<Vec<u8>>),
}

/// An event as bytes.
pub enum EventView {
    Reported(bool),
    Looked { ours: Seq<u8>, theirs: Seq<u8>, digest: Option<u32> },
    Asked(Option<Seq<u8>>),
}

pub open spec fn optional_bytes(b: Option<Vec<u8>>) -> Option<Seq<u8>> {
    match b {
        Some(b) => Some(b@),
        None => None,
    }
}

impl View for Event {
    type V = EventView;

    open spec fn view(&self) -> EventView {
        match *self {
            Event::Reported(go_on) => EventView::Reported(go_on),
            Event::Looked { ours, theirs, digest } => EventView::Looked {
                ours: ours@,
                theirs: theirs@,
                digest,
            },
            Event::Asked(base) => EventView::Asked(optional_bytes(base)),
        }
    }
}

/// How often the scan tells how far it has come.
pub const REPORT_EVERY: usize = 128;

/// What the last report says.
pub const LAST_LABEL: &'static str = "done";

/// Where the scan stops next, coming to the file `n`: it reports at every
/// [`REPORT_EVERY`]th file and behind the last one, and passes over the jars.
pub open spec fn stop_at(shared: Seq<Seq<char>>, n: int) -> (int, StageView)
    decreases shared.len() - n,
{
    if n >= shared.len() {
        (shared.len() as int, StageView::Close)
    } else if n % 128 == 0 {
        (n, StageView::Report)
    } else if is_mod(shared[n]) {
        stop_at(shared, n + 1)
    } else {
        (n, StageView::Look)
    }
}

/// The plan with a file in the list that the verdict puts it in.
pub open spec fn recorded(plan: PlanView, rel: Seq<char>, v: VerdictView) -> PlanView {
    match v {
        VerdictView::Identical => PlanView { identical: plan.identical + 1, ..plan },
        VerdictView::TakePack => PlanView { take_pack: plan.take_pack + 1, ..plan },
        VerdictView::KeepYours => PlanView { keep_yours: plan.keep_yours.push(rel), ..plan },
        VerdictView::Merged(text) => PlanView {
            auto_merged: plan.auto_merged.push((rel, text)),
            ..plan
        },
        VerdictView::Conflict { merge, no_base } => PlanView {
            conflicts: plan.conflicts.push(
                ConflictView { rel, merge, no_base, reviewed: false },
            ),
            ..plan
        },
        VerdictView::Binary { ours_size, theirs_size } => PlanView {
            binary_conflicts: plan.binary_conflicts.push(
                BinaryView { rel, ours_size, theirs_size, take_pack: true },
            ),
            ..plan
        },
    }
}

impl ScanView {
    /// Every file is settled, and the last report is made.
    pub open spec fn finished(self) -> bool {
        self.stage is Done
    }

    /// The scan behind the file it is at, with the plan grown to `plan`.
    pub open spec fn past(self, plan: PlanView) -> ScanView {
        let (next, stage) = stop_at(self.shared, self.next + 1);
        ScanView { shared: self.shared, next, stage, plan }
    }

    pub open spec fn at(self, stage: StageView) -> ScanView {
        ScanView { stage, ..self }
    }

    /// The scan once it has been told. What it did not ask for changes nothing, and
    /// nor does the answer to the last report.
    pub open spec fn told(self, e: EventView) -> ScanView {
        let rel = self.shared[self.next];
        match (self.stage, e) {
            (StageView::Report, EventView::Reported(go_on)) => if !go_on {
                self.at(StageView::Cancelled)
            } else if is_mod(rel) {
                self.past(self.plan)
            } else {
                self.at(StageView::Look)
            },
            (StageView::Look, EventView::Looked { ours, theirs, digest }) => match early_verdict(
                ours,
                theirs,
                digest,
            ) {
                Some(v) => self.past(recorded(self.plan, rel, v)),
                None => self.at(StageView::Ask { ours, theirs }),
            },
            (StageView::Ask { ours, theirs }, EventView::Asked(base)) => self.past(
                recorded(self.plan, rel, late_verdict(ours, theirs, base)),
            ),
            (StageView::Close, EventView::Reported(_)) => self.at(StageView::Done),
            _ => self,
        }
    }
}

pub open spec fn if_mod(e: (Seq<char>, u64)) -> Option<(Seq<char>, u64)> {
    if is_mod(e.0) {
        Some(e)
    } else {
        None
    }
}

/// The jars of an index.
pub open spec fn mods_in(files: Seq<(Seq<char>, u64)>) -> Seq<(Seq<char>, u64)> {
    collected(files, |e: (Seq<char>, u64)| if_mod(e))
}

/// The plan before any file is compared: the mods, and what is carried over.
pub open spec fn first_plan(
    ours: Seq<(Seq<char>, u64)>,
    theirs: Seq<(Seq<char>, u64)>,
    base: Seq<(Seq<char>, u64)>,
) -> PlanView {
    PlanView {
        carry: carry_of(ours, entry_keys(theirs)),
        mods: plan_of(entry_keys(mods_in(base)), mods_in(ours), entry_keys(mods_in(theirs))),
        base_missing: base.len() == 0,
        ..empty_plan()
    }
}

/// The scan before it is told anything.
pub open spec fn first_scan(
    ours: Seq<(Seq<char>, u64)>,
    theirs: Seq<(Seq<char>, u64)>,
    base: Seq<(Seq<char>, u64)>,
) -> ScanView {
    let shared = shared_files(entry_keys(ours), entry_keys(theirs));
    let (next, stage) = stop_at(shared, 0);
    ScanView { shared, next, stage, plan: first_plan(ours, theirs, base) }
}

proof fn lemma_collected_ascending(files: Seq<(Seq<char>, u64)>)
    requires
        crate::textmap::ascending(entry_keys(files)),
    ensures
        crate::textmap::ascending(entry_keys(mods_in(files))),
        forall|i: int|
            0 <= i < mods_in(files).len() ==> entry_keys(files).contains(
                (#[trigger] mods_in(files)[i]).0,
            ),
    decreases files.len(),
{
    if files.len() > 0 {
        let short = files.drop_last();
        let ks = entry_keys(files);
        let f = |e: (Seq<char>, u64)| if_mod(e);
        assert(mods_in(short) == collected(short, f));
        assert(mods_in(files) == collected(files, f));
        assert forall|i: int, j: int| 0 <= i < j < entry_keys(short).len() implies
            #[trigger] crate::text::before(entry_keys(short)[i], entry_keys(short)[j]) by {
            assert(crate::text::before(ks[i], ks[j]));
        }
        lemma_collected_ascending(short);
        let out = entry_keys(mods_in(files));
        let init = entry_keys(mods_in(short));
        assert forall|i: int| 0 <= i < mods_in(files).len() implies ks.contains(
            (#[trigger] mods_in(files)[i]).0,
        ) by {
            if i < mods_in(short).len() {
                assert(mods_in(files)[i] == mods_in(short)[i]);
                let p = entry_keys(short).index_of(mods_in(short)[i].0);
                assert(ks[p] == mods_in(short)[i].0);
            } else {
                assert(ks[ks.len() - 1] == files.last().0);
            }
        }
        assert forall|i: int, j: int| 0 <= i < j < out.len() implies #[trigger] crate::text::before(
            out[i],
            out[j],
        ) by {
            assert(out[i] == init[i]);
            if j < init.len() {
                assert(out[j] == init[j]);
                assert(crate::text::before(init[i], init[j]));
            } else {
                let p = entry_keys(short).index_of(mods_in(short)[i].0);
                assert(ks[p] == init[i]);
                assert(crate::text::before(ks[p], ks[ks.len() - 1]));
                assert(out[j] == files.last().0);
            }
        }
    }
}

/// The jars of an index.
fn filter_mods(index: &TextMap<u64>) -> (r: TextMap<u64>)
    requires
        index.wf(),
    ensures
        r.wf(),
        r.pairs() == mods_in(index.pairs()),
        r.keys() == entry_keys(mods_in(index.pairs())),
{
    let mut out: Vec<(String, u64)> = Vec::new();
    let ghost all = index.pairs();
    let ghost f = |e: (Seq<char>, u64)| if_mod(e);
    let mut i: usize = 0;
    proof {
        assert(all.take(0) =~= Seq::empty());
        assert(file_views(out@) =~= Seq::empty());
    }
    while i < index.entries.len()
        invariant
            all == index.pairs(),
            f == (|e: (Seq<char>, u64)| if_mod(e)),
            i <= index.entries.len(),
            file_views(out@) == collected(all.take(i as int), f),
        decreases index.entries.len() - i,
    {
        let ghost o0 = file_views(out@);
        proof {
            assert(all.take(i + 1).drop_last() =~= all.take(i as int));
            assert(all.take(i + 1).last() == (
                index.entries@[i as int].0@,
                index.entries@[i as int].1,
            ));
        }
        if is_mod_file(index.entries[i].0.as_str()) {
            out.push((index.entries[i].0.clone(), index.entries[i].1));
            assert(file_views(out@) =~= o0.push(all[i as int]));
        }
        i += 1;
    }
    let r = TextMap { entries: out };
    proof {
        assert(all.take(i as int) =~= all);
        assert(r.pairs() =~= file_views(r.entries@));
        crate::textmap::lemma_pairs(*index);
        lemma_collected_ascending(all);
        assert(r.keys() =~= entry_keys(r.pairs()));
    }
    r
}

/// The files that both sides have.
fn shared_between(ours: &TextMap<u64>, theirs: &TextMap<u64>) -> (r: Vec<String>)
    requires
        ours.wf(),
    ensures
        texts(r@) == shared_files(ours.keys(), theirs.keys()),
{
    let mut out: Vec<String> = Vec::new();
    let ghost all = theirs.keys();
    let ghost f = |rel: Seq<char>| if_shared(rel, ours.keys());
    let mut i: usize = 0;
    proof {
        assert(all.take(0) =~= Seq::empty());
        assert(texts(out@) =~= Seq::empty());
    }
    while i < theirs.entries.len()
        invariant
            ours.wf(),
            all == theirs.keys(),
            f == (|rel: Seq<char>| if_shared(rel, ours.keys())),
            i <= theirs.entries.len(),
            texts(out@) == collected(all.take(i as int), f),
        decreases theirs.entries.len() - i,
    {
        let ghost o0 = texts(out@);
        proof {
            assert(all.take(i + 1).drop_last() =~= all.take(i as int));
            assert(all.take(i + 1).last() == theirs.entries@[i as int].0@);
        }
        if ours.contains_key(theirs.entries[i].0.as_str()) {
            out.push(theirs.entries[i].0.clone());
            assert(texts(out@) =~= o0.push(all[i as int]));
        }
        i += 1;
    }
    assert(all.take(i as int) =~= all);
    out
}

impl Plan {
    /// Put a file in the list that the verdict puts it in.
    fn record(&mut self, rel: &str, v: Verdict)
        requires
            old(self).identical < usize::MAX,
            old(self).take_pack < usize::MAX,
        ensures
            final(self)@ == recorded(old(self)@, rel@, v@),
            final(self).identical + final(self).take_pack <= old(self).identical
                + old(self).take_pack + 1,
    {
        let ghost prev = self@;
        match v {
            Verdict::Identical => {
                self.identical += 1;
            },
            Verdict::TakePack => {
                self.take_pack += 1;
            },
            Verdict::KeepYours => {
                self.keep_yours.push(rel.to_owned());
                assert(self@.keep_yours =~= prev.keep_yours.push(rel@));
            },
            Verdict::Merged(text) => {
                let ghost tv = text@;
                self.auto_merged.push((rel.to_owned(), text));
                assert(self@.auto_merged =~= prev.auto_merged.push((rel@, tv)));
            },
            Verdict::Conflict { merge, no_base } => {
                let c = ConflictFile { rel: rel.to_owned(), merge, no_base, reviewed: false };
                let ghost cv = c@;
                self.conflicts.push(c);
                assert(self@.conflicts =~= prev.conflicts.push(cv));
            },
            Verdict::Binary { ours_size, theirs_size } => {
                let c = BinaryConflict {
                    rel: rel.to_owned(),
                    ours_size,
                    theirs_size,
                    take_pack: true,
                };
                let ghost cv = c@;
                self.binary_conflicts.push(c);
                assert(self@.binary_conflicts =~= prev.binary_conflicts.push(cv));
            },
        }
    }
}

/// Where the scan stops next.
fn next_stop(shared: &Vec<String>, from: usize) -> (r: (usize, Stage))
    requires
        from <= shared.len(),
    ensures
        (r.0 as int, r.1@) == stop_at(texts(shared@), from as int),
        from <= r.0 <= shared.len(),
        r.0 < shared.len() || r.1@ is Close,
{
    let mut n: usize = from;
    while n < shared.len()
        invariant
            from <= n <= shared.len(),
            stop_at(texts(shared@), from as int) == stop_at(texts(shared@), n as int),
        decreases shared.len() - n,
    {
        if n % REPORT_EVERY == 0 {
            return (n, Stage::Report);
        }
        assert(texts(shared@)[n as int] == shared@[n as int]@);
        if !is_mod_file(shared[n].as_str()) {
            return (n, Stage::Look);
        }
        n += 1;
    }
    (n, Stage::Close)
}

impl Scan {
    pub closed spec fn wf(self) -> bool {
        &&& self.next <= self.shared.len()
        &&& self.plan.identical + self.plan.take_pack <= self.next
        &&& (self.stage is Report || self.stage is Look || self.stage is Ask) ==> self.next
            < self.shared.len()
    }

    /// What the scan wants to know next.
    pub fn action(&self) -> (r: Action)
        requires
            self.wf(),
        ensures
            self@.finished() <==> r is Finish,
            match self@.stage {
                StageView::Report => r matches Action::Report { done, total, label } && done
                    == self@.next && total == self@.shared.len() && label@
                    == self@.shared[self@.next],
                StageView::Look => r matches Action::Look(rel) && rel@
                    == self@.shared[self@.next],
                StageView::Ask { .. } => r matches Action::Ask(rel) && rel@
                    == self@.shared[self@.next],
                StageView::Close => r matches Action::Report { done, total, label } && done
                    == self@.shared.len() && total == self@.shared.len() && label@ == LAST_LABEL@,
                StageView::Done => r is Finish,
                StageView::Cancelled => r is Cancelled,
            },
    {
        match &self.stage {
            Stage::Report => {
                assert(self@.shared[self.next as int] == self.shared@[self.next as int]@);
                Action::Report {
                    done: self.next,
                    total: self.shared.len(),
                    label: self.shared[self.next].clone(),
                }
            },
            Stage::Look => {
                assert(self@.shared[self.next as int] == self.shared@[self.next as int]@);
                Action::Look(self.shared[self.next].clone())
            },
            Stage::Ask { .. } => {
                assert(self@.shared[self.next as int] == self.shared@[self.next as int]@);
                Action::Ask(self.shared[self.next].clone())
            },
            Stage::Close => Action::Report {
                done: self.shared.len(),
                total: self.shared.len(),
                label: LAST_LABEL.to_owned(),
            },
            Stage::Done => Action::Finish,
            Stage::Cancelled => Action::Cancelled,
        }
    }

    /// Tell the scan what it wanted to know.
    pub fn tell(self, e: Event) -> (r: Self)
        requires
            self.wf(),
        ensures
            r.wf(),
            r@ == self@.told(e@),
    {
        let Scan { shared, next, stage, plan } = self;
        let ghost all = texts(shared@);
        assert(next < shared.len() ==> all[next as int] == shared@[next as int]@);
        match (stage, e) {
            (Stage::Report, Event::Reported(go_on)) => {
                if !go_on {
                    Scan { shared, next, stage: Stage::Cancelled, plan }
                } else if is_mod_file(shared[next].as_str()) {
                    let (next, stage) = next_stop(&shared, next + 1);
                    Scan { shared, next, stage, plan }
                } else {
                    Scan { shared, next, stage: Stage::Look, plan }
                }
            },
            (Stage::Look, Event::Looked { ours, theirs, digest }) => {
                match settle(&ours, &theirs, digest) {
                    Some(v) => {
                        let mut plan = plan;
                        plan.record(shared[next].as_str(), v);
                        let (next, stage) = next_stop(&shared, next + 1);
                        Scan { shared, next, stage, plan }
                    },
                    None => Scan { shared, next, stage: Stage::Ask { ours, theirs }, plan },
                }
            },
            (Stage::Ask { ours, theirs }, Event::Asked(base)) => {
                let v = settle_by_original(&ours, &theirs, base.as_ref());
                let mut plan = plan;
                plan.record(shared[next].as_str(), v);
                let (next, stage) = next_stop(&shared, next + 1);
                Scan { shared, next, stage, plan }
            },
            (Stage::Close, Event::Reported(_)) => Scan { shared, next, stage: Stage::Done, plan },
            (stage, _) => Scan { shared, next, stage, plan },
        }
    }

    /// The plan as far as the files are settled; once there is nothing more to
    /// tell, the whole of it.
    pub fn into_plan(self) -> (r: Plan)
        ensures
            r@ == self@.plan,
    {
        self.plan
    }
}

/// Build the plan: the mods and what is carried over are settled at once, the
/// files that both sides have one by one, as the scan is told what they hold.
pub fn build(input: BuildInput<'_>, base: &TextMap<u64>) -> (r: Scan)
    requires
        input.ours.wf(),
        input.theirs.wf(),
        base.wf(),
        countable(input.ours.pairs(), input.theirs.keys()),
    ensures
        r.wf(),
        r@ == first_scan(input.ours.pairs(), input.theirs.pairs(), base.pairs()),
{
    let mut plan = Plan::default();
    proof {
        crate::textmap::lemma_pairs(*input.ours);
        crate::textmap::lemma_pairs(*input.theirs);
    }
    plan.base_missing = base.len() == 0;
    plan.mods = crate::mods::plan(
        &filter_mods(base),
        &filter_mods(input.ours),
        &filter_mods(input.theirs),
    );
    plan.carry = carry_groups(input.ours, input.theirs);
    let shared = shared_between(input.ours, input.theirs);
    let (next, stage) = next_stop(&shared, 0);
    Scan { shared, next, stage, plan }
}

// ---------------------------------------------------------------------------
// Laws
// ---------------------------------------------------------------------------

/// What there is to find out: the bytes of both versions of each file, the
/// checksum of its original and the original itself, where they are known.
pub struct World {
    pub ours: spec_fn(Seq<char>) -> Seq<u8>,
    pub theirs: spec_fn(Seq<char>) -> Seq<u8>,
    pub digest: spec_fn(Seq<char>) -> Option<u32>,
    pub base: spec_fn(Seq<char>) -> Option<Seq<u8>>,
}

impl World {
    /// What is to happen to a file.
    pub open spec fn verdict(self, rel: Seq<char>) -> VerdictView {
        verdict((self.ours)(rel), (self.theirs)(rel), (self.digest)(rel), (self.base)(rel))
    }

    /// What the scan is told when it asks.
    pub open spec fn answer(self, scan: ScanView) -> EventView {
        let rel = scan.shared[scan.next];
        match scan.stage {
            StageView::Look => EventView::Looked {
                ours: (self.ours)(rel),
                theirs: (self.theirs)(rel),
                digest: (self.digest)(rel),
            },
            StageView::Ask { .. } => EventView::Asked((self.base)(rel)),
            _ => EventView::Reported(true),
        }
    }

    /// The scan after `n` answers.
    pub open spec fn run(self, scan: ScanView, n: nat) -> ScanView
        decreases n,
    {
        if n == 0 {
            scan
        } else {
            let so_far = self.run(scan, (n - 1) as nat);
            so_far.told(self.answer(so_far))
        }
    }

    /// The plan with the first `n` of the shared files in their lists.
    pub open spec fn planned(self, first: PlanView, shared: Seq<Seq<char>>, n: int) -> PlanView
        decreases n,
    {
        if n <= 0 {
            first
        } else {
            let so_far = self.planned(first, shared, n - 1);
            let rel = shared[n - 1];
            if is_mod(rel) {
                so_far
            } else {
                recorded(so_far, rel, self.verdict(rel))
            }
        }
    }
}

impl World {
    /// The plan that a scan of these trees ends with.
    pub open spec fn whole_plan(
        self,
        ours: Seq<(Seq<char>, u64)>,
        theirs: Seq<(Seq<char>, u64)>,
        base: Seq<(Seq<char>, u64)>,
    ) -> PlanView {
        let shared = shared_files(entry_keys(ours), entry_keys(theirs));
        self.planned(first_plan(ours, theirs, base), shared, shared.len() as int)
    }
}

/// The scan is at a stop, with everything in front of it settled.
spec fn on_course(w: World, first: PlanView, s: ScanView) -> bool {
    let rel = s.shared[s.next];
    &&& 0 <= s.next <= s.shared.len()
    &&& s.plan == w.planned(first, s.shared, s.next)
    &&& match s.stage {
        StageView::Report => s.next < s.shared.len(),
        StageView::Look => s.next < s.shared.len() && !is_mod(rel),
        StageView::Ask { ours, theirs } => {
            &&& s.next < s.shared.len()
            &&& !is_mod(rel)
            &&& ours == (w.ours)(rel)
            &&& theirs == (w.theirs)(rel)
            &&& early_verdict(ours, theirs, (w.digest)(rel)) is None
        },
        StageView::Close => s.next == s.shared.len(),
        StageView::Done => s.next == s.shared.len(),
        StageView::Cancelled => false,
    }
}

/// How many answers the scan can still take.
spec fn answers_left(s: ScanView) -> int {
    3 * (s.shared.len() - s.next) + (match s.stage {
        StageView::Report => 1int,
        StageView::Look => 0int,
        StageView::Ask { .. } => -1int,
        StageView::Close => 1int,
        StageView::Done => 0int,
        StageView::Cancelled => 0int,
    })
}

proof fn lemma_stop_at(w: World, first: PlanView, shared: Seq<Seq<char>>, n: int)
    requires
        0 <= n <= shared.len(),
    ensures
        ({
            let (next, stage) = stop_at(shared, n);
            &&& n <= next <= shared.len()
            &&& !(stage is Ask)
            &&& w.planned(first, shared, next) == w.planned(first, shared, n)
            &&& stage is Report || stage is Look || stage is Close
            &&& stage is Close <==> next == shared.len()
            &&& stage is Look ==> !is_mod(shared[next])
        }),
    decreases shared.len() - n,
{
    if n < shared.len() && n % 128 != 0 && is_mod(shared[n]) {
        lemma_stop_at(w, first, shared, n + 1);
    }
}

proof fn lemma_told(w: World, first: PlanView, s: ScanView)
    requires
        on_course(w, first, s),
        !s.finished(),
    ensures
        on_course(w, first, s.told(w.answer(s))),
        s.told(w.answer(s)).shared == s.shared,
        answers_left(s.told(w.answer(s))) < answers_left(s),
{
    if s.next < s.shared.len() {
        lemma_stop_at(w, first, s.shared, s.next + 1);
    }
}

proof fn lemma_run(w: World, first: PlanView, s: ScanView, n: nat)
    requires
        on_course(w, first, s),
    ensures
        on_course(w, first, w.run(s, n)),
        w.run(s, n).shared == s.shared,
        w.run(s, n).finished() || answers_left(w.run(s, n)) <= answers_left(s) - n,
    decreases n,
{
    if n > 0 {
        lemma_run(w, first, s, (n - 1) as nat);
        let before_it = w.run(s, (n - 1) as nat);
        if !before_it.finished() {
            lemma_told(w, first, before_it);
        }
    }
}

/// However the answers come out, three for each shared file and one to the last
/// report are enough, and then every shared file that is no jar is in the list that its own verdict puts it
/// in, and the mods and what is carried over are as they were settled.
pub proof fn law_a_scan_settles_every_file(
    w: World,
    ours: Seq<(Seq<char>, u64)>,
    theirs: Seq<(Seq<char>, u64)>,
    base: Seq<(Seq<char>, u64)>,
)
    ensures
        ({
            let start = first_scan(ours, theirs, base);
            let end = w.run(start, 3 * start.shared.len() + 1);
            &&& end.finished()
            &&& end.plan == w.whole_plan(ours, theirs, base)
            &&& end.plan.mods == start.plan.mods
            &&& end.plan.carry == start.plan.carry
            &&& end.plan.base_missing == start.plan.base_missing
        }),
{
    let start = first_scan(ours, theirs, base);
    let first = first_plan(ours, theirs, base);
    lemma_stop_at(w, first, start.shared, 0);
    lemma_run(w, first, start, 3 * start.shared.len() + 1);
    lemma_planned_keeps(w, first, start.shared, start.shared.len() as int);
}

/// A refusal at a report ends the scan for good; at the last one, when every file
/// is settled, the answer changes nothing.
pub proof fn law_only_a_refusal_cancels(scan: ScanView, e: EventView)
    ensures
        scan.told(e).stage is Cancelled <==> scan.stage is Cancelled || (scan.stage is Report && e
            == EventView::Reported(false)),
        scan.stage is Cancelled ==> scan.told(e) == scan,
        scan.stage is Report && e == EventView::Reported(false) ==> scan.told(e).plan == scan.plan,
        scan.stage is Close && e is Reported ==> scan.told(e) == scan.at(StageView::Done),
{
    lemma_stop_stage(scan.shared, scan.next + 1);
}

proof fn lemma_stop_stage(shared: Seq<Seq<char>>, n: int)
    ensures
        !(stop_at(shared, n).1 is Cancelled),
    decreases shared.len() - n,
{
    if n < shared.len() && n % 128 != 0 && is_mod(shared[n]) {
        lemma_stop_stage(shared, n + 1);
    }
}

/// Settling files leaves the rest of the plan alone.
pub proof fn lemma_planned_keeps(w: World, first: PlanView, shared: Seq<Seq<char>>, n: int)
    ensures
        w.planned(first, shared, n).mods == first.mods,
        w.planned(first, shared, n).carry == first.carry,
        w.planned(first, shared, n).base_missing == first.base_missing,
    decreases n,
{
    if n > 0 {
        lemma_planned_keeps(w, first, shared, n - 1);
    }
}

/// How many files the lists of a plan hold.
pub open spec fn settled(plan: PlanView) -> int {
    plan.identical + plan.take_pack + plan.keep_yours.len() + plan.auto_merged.len()
        + plan.conflicts.len() + plan.binary_conflicts.len()
}

/// A file that the comparison is about.
pub open spec fn compared(shared: Seq<Seq<char>>, rel: Seq<char>) -> bool {
    shared.contains(rel) && !is_mod(rel)
}

/// Every list of a plan holds the files whose verdict it stands for, and no other.
pub open spec fn sorted_out(w: World, shared: Seq<Seq<char>>, plan: PlanView) -> bool {
    &&& plan.identical == count(
        shared,
        |rel: Seq<char>| !is_mod(rel) && w.verdict(rel) is Identical,
    )
    &&& plan.take_pack == count(
        shared,
        |rel: Seq<char>| !is_mod(rel) && w.verdict(rel) is TakePack,
    )
    &&& plan.keep_yours.len() == count(
        shared,
        |rel: Seq<char>| !is_mod(rel) && w.verdict(rel) is KeepYours,
    )
    &&& plan.auto_merged.len() == count(
        shared,
        |rel: Seq<char>| !is_mod(rel) && w.verdict(rel) is Merged,
    )
    &&& plan.conflicts.len() == count(
        shared,
        |rel: Seq<char>| !is_mod(rel) && w.verdict(rel) is Conflict,
    )
    &&& plan.binary_conflicts.len() == count(
        shared,
        |rel: Seq<char>| !is_mod(rel) && w.verdict(rel) is Binary,
    )
    &&& forall|rel: Seq<char>| #[trigger]
        plan.keep_yours.contains(rel) <==> compared(shared, rel) && w.verdict(rel) is KeepYours
    &&& forall|rel: Seq<char>, text: Seq<char>| #[trigger]
        plan.auto_merged.contains((rel, text)) <==> compared(shared, rel) && w.verdict(rel)
            == VerdictView::Merged(text)
    &&& forall|c: ConflictView| #[trigger]
        plan.conflicts.contains(c) <==> compared(shared, c.rel) && !c.reviewed && w.verdict(c.rel)
            == (VerdictView::Conflict { merge: c.merge, no_base: c.no_base })
    &&& forall|c: BinaryView| #[trigger]
        plan.binary_conflicts.contains(c) <==> compared(shared, c.rel) && c.take_pack && w.verdict(
            c.rel,
        ) == (VerdictView::Binary { ours_size: c.ours_size, theirs_size: c.theirs_size })
}

/// Every shared file that is no jar is in the list of its verdict, nothing else is
/// in a list, and no file is listed twice: the lists are as long as there are
/// files.
pub proof fn law_every_shared_file_is_in_one_list(
    w: World,
    ours: Seq<(Seq<char>, u64)>,
    theirs: Seq<(Seq<char>, u64)>,
    base: Seq<(Seq<char>, u64)>,
)
    ensures
        ({
            let shared = shared_files(entry_keys(ours), entry_keys(theirs));
            let plan = w.whole_plan(ours, theirs, base);
            &&& sorted_out(w, shared, plan)
            &&& settled(plan) == count(shared, |rel: Seq<char>| !is_mod(rel))
        }),
{
    let shared = shared_files(entry_keys(ours), entry_keys(theirs));
    lemma_settled(w, first_plan(ours, theirs, base), shared, shared.len() as int);
    assert(shared.take(shared.len() as int) =~= shared);
}

proof fn lemma_push<T>(s: Seq<T>, x: T)
    ensures
        forall|y: T| #[trigger] s.push(x).contains(y) <==> s.contains(y) || y == x,
{
    assert forall|y: T| #[trigger] s.push(x).contains(y) <==> s.contains(y) || y == x by {
        if s.contains(y) {
            assert(s.push(x)[s.index_of(y)] == y);
        }
        if y == x {
            assert(s.push(x)[s.len() as int] == y);
        }
        if s.push(x).contains(y) && y != x {
            assert(s[s.push(x).index_of(y)] == y);
        }
    }
}

proof fn lemma_settled(w: World, first: PlanView, shared: Seq<Seq<char>>, n: int)
    requires
        0 <= n <= shared.len(),
        first.identical == 0,
        first.take_pack == 0,
        settled(first) == 0,
    ensures
        sorted_out(w, shared.take(n), w.planned(first, shared, n)),
        settled(w.planned(first, shared, n)) == count(
            shared.take(n),
            |rel: Seq<char>| !is_mod(rel),
        ),
    decreases n,
{
    if n > 0 {
        lemma_settled(w, first, shared, n - 1);
        let so_far = w.planned(first, shared, n - 1);
        let rel = shared[n - 1];
        assert(shared.take(n).drop_last() =~= shared.take(n - 1));
        assert(shared.take(n) =~= shared.take(n - 1).push(rel));
        lemma_push(shared.take(n - 1), rel);
        match w.verdict(rel) {
            VerdictView::Identical => {},
            VerdictView::TakePack => {},
            VerdictView::KeepYours => lemma_push(so_far.keep_yours, rel),
            VerdictView::Merged(text) => lemma_push(so_far.auto_merged, (rel, text)),
            VerdictView::Conflict { merge, no_base } => lemma_push(
                so_far.conflicts,
                ConflictView { rel, merge, no_base, reviewed: false },
            ),
            VerdictView::Binary { ours_size, theirs_size } => lemma_push(
                so_far.binary_conflicts,
                BinaryView { rel, ours_size, theirs_size, take_pack: true },
            ),
        }
    } else {
        assert(shared.take(0) =~= Seq::empty());
    }
}

/// The checksum, where it is known, is that of the original, and neither version
/// that differs from the original has the same one by chance.
pub open spec fn digest_tells(
    ours: Seq<u8>,
    theirs: Seq<u8>,
    digest: Option<u32>,
    original: Seq<u8>,
) -> bool {
    digest matches Some(crc) ==> {
        &&& crc == crc32_of(original)
        &&& crc32_of(ours) == crc ==> ours == original
        &&& crc32_of(theirs) == crc ==> theirs == original
    }
}

/// What becomes of a file whose original is known, by who changed it.
pub proof fn law_who_changed_it_decides(
    ours: Seq<u8>,
    theirs: Seq<u8>,
    digest: Option<u32>,
    original: Seq<u8>,
)
    requires
        digest_tells(ours, theirs, digest, original),
    ensures
        ({
            let v = verdict(ours, theirs, digest, Some(original));
            let you = ours != original;
            let pack = theirs != original;
            &&& !you && !pack ==> v == VerdictView::Identical
            &&& !you && pack ==> v == VerdictView::TakePack
            &&& you && !pack ==> v == VerdictView::KeepYours
            &&& you && pack && ours == theirs ==> v == VerdictView::Identical
            &&& you && pack && ours != theirs ==> if mergeable(original) && mergeable(ours)
                && mergeable(theirs) {
                v == merge_verdict(
                    diff3(decode_utf8(original), decode_utf8(ours), decode_utf8(theirs)),
                )
            } else {
                v is Binary
            }
        }),
{
}

/// Without the original every difference is a straight choice between the two
/// versions: nothing is merged and neither side is dropped unasked.
pub proof fn law_without_an_original_you_choose(ours: Seq<u8>, theirs: Seq<u8>)
    requires
        ours != theirs,
    ensures
        ({
            let v = verdict(ours, theirs, None, None);
            if mergeable(ours) && mergeable(theirs) {
                v == (VerdictView::Conflict {
                    merge: whole_file(decode_utf8(ours), decode_utf8(theirs)),
                    no_base: true,
                })
            } else {
                v is Binary
            }
        }),
{
}

/// The sum of what the items weigh.
pub open spec fn total<T>(s: Seq<T>, weight: spec_fn(T) -> int) -> int
    decreases s.len(),
{
    if s.len() == 0 {
        0
    } else {
        total(s.drop_last(), weight) + weight(s.last())
    }
}

pub proof fn lemma_total_removed<T>(s: Seq<T>, i: int, weight: spec_fn(T) -> int)
    requires
        0 <= i < s.len(),
    ensures
        total(s, weight) == total(s.remove(i), weight) + weight(s[i]),
    decreases s.len(),
{
    if i < s.len() - 1 {
        lemma_total_removed(s.drop_last(), i, weight);
        assert(s.remove(i).drop_last() =~= s.drop_last().remove(i));
        assert(s.remove(i).last() == s.last());
    } else {
        assert(s.remove(i) =~= s.drop_last());
    }
}

/// Items that correspond one to one, and weigh the same, weigh the same in all, in
/// whatever order.
pub proof fn lemma_total_moved<T, U>(
    a: Seq<T>,
    b: Seq<U>,
    there: spec_fn(T) -> U,
    back: spec_fn(U) -> T,
    weight: spec_fn(T) -> int,
    moved: spec_fn(U) -> int,
)
    requires
        a.no_duplicates(),
        b.no_duplicates(),
        forall|i: int|
            0 <= i < a.len() ==> b.contains(there(#[trigger] a[i])) && back(there(a[i])) == a[i]
                && moved(there(a[i])) == weight(a[i]),
        forall|j: int|
            0 <= j < b.len() ==> a.contains(back(#[trigger] b[j])) && there(back(b[j])) == b[j],
    ensures
        a.len() == b.len(),
        total(a, weight) == total(b, moved),
    decreases a.len(),
{
    if a.len() == 0 {
        if b.len() > 0 {
            assert(a.contains(back(b[0])));
        }
    } else {
        let init = a.drop_last();
        let x = a[a.len() - 1];
        let k = b.index_of(there(x));
        assert(b.contains(there(x)));
        let rest = b.remove(k);
        assert forall|i: int| 0 <= i < init.len() implies rest.contains(there(#[trigger] init[i]))
            && back(there(init[i])) == init[i] && moved(there(init[i])) == weight(init[i]) by {
            assert(init[i] == a[i]);
            let j = b.index_of(there(a[i]));
            assert(b.contains(there(a[i])));
            if j == k {
                assert(back(b[k]) == x);
                assert(a[i] == x);
            }
            assert(j != k);
            if j < k {
                assert(rest[j] == b[j]);
            } else {
                assert(rest[j - 1] == b[j]);
            }
        }
        assert forall|j: int| 0 <= j < rest.len() implies init.contains(back(#[trigger] rest[j]))
            && there(back(rest[j])) == rest[j] by {
            let q = if j < k {
                j
            } else {
                j + 1
            };
            assert(rest[j] == b[q]);
            assert(a.contains(back(b[q])));
            let i = a.index_of(back(b[q]));
            if i == a.len() - 1 {
                assert(there(x) == b[q]);
                assert(b[q] == b[k]);
            }
            assert(init[i] == a[i]);
        }
        assert(init.no_duplicates());
        assert(rest.no_duplicates()) by {
            assert forall|i: int, j: int| 0 <= i < rest.len() && 0 <= j < rest.len() && i
                != j implies rest[i] != rest[j] by {
                let p = if i < k {
                    i
                } else {
                    i + 1
                };
                let q = if j < k {
                    j
                } else {
                    j + 1
                };
                assert(rest[i] == b[p] && rest[j] == b[q]);
            }
        }
        lemma_total_moved(init, rest, there, back, weight, moved);
        lemma_total_removed(b, k, moved);
        assert(a.last() == x);
    }
}

/// The bytes of all the files.
pub open spec fn file_bytes(files: Seq<(Seq<char>, u64)>) -> int {
    total(files, |e: (Seq<char>, u64)| e.1 as int)
}

/// The bytes of the groups that are switched off.
pub open spec fn disabled_bytes(groups: Seq<CarryView>) -> int {
    total(
        groups,
        |g: CarryView|
            if g.enabled {
                0int
            } else {
                g.bytes
            },
    )
}

pub open spec fn group_weight(g: CarryView) -> int {
    g.bytes
}

proof fn lemma_enabled_and_disabled(groups: Seq<CarryView>)
    ensures
        enabled_bytes(groups) + disabled_bytes(groups) == total(
            groups,
            |g: CarryView| group_weight(g),
        ),
    decreases groups.len(),
{
    if groups.len() > 0 {
        lemma_enabled_and_disabled(groups.drop_last());
    }
}

proof fn lemma_same_weights(a: Seq<CarryView>, b: Seq<CarryView>)
    requires
        a.len() == b.len(),
        forall|i: int| 0 <= i < a.len() ==> (#[trigger] a[i]).bytes == b[i].bytes,
    ensures
        total(a, |g: CarryView| group_weight(g)) == total(b, |g: CarryView| group_weight(g)),
    decreases a.len(),
{
    if a.len() > 0 {
        assert(a[a.len() - 1].bytes == b[b.len() - 1].bytes);
        assert forall|i: int| 0 <= i < a.len() - 1 implies (#[trigger] a.drop_last()[i]).bytes
            == b.drop_last()[i].bytes by {
            assert(a[i].bytes == b[i].bytes);
        }
        lemma_same_weights(a.drop_last(), b.drop_last());
    }
}

proof fn lemma_none_disabled(groups: Seq<CarryView>)
    requires
        forall|i: int| 0 <= i < groups.len() ==> (#[trigger] groups[i]).enabled,
    ensures
        disabled_bytes(groups) == 0,
    decreases groups.len(),
{
    if groups.len() > 0 {
        assert(groups[groups.len() - 1].enabled);
        assert forall|i: int| 0 <= i < groups.len() - 1 implies (
        #[trigger] groups.drop_last()[i]).enabled by {
            assert(groups[i].enabled);
        }
        lemma_none_disabled(groups.drop_last());
    }
}

/// One file more adds its size to its own group.
proof fn lemma_one_file_more(files: Seq<(Seq<char>, u64)>, names: Seq<Seq<char>>)
    requires
        files.len() > 0,
        names.no_duplicates(),
    ensures
        total(names, |n: Seq<char>| bytes_in(files, n)) == total(
            names,
            |n: Seq<char>| bytes_in(files.drop_last(), n),
        ) + if names.contains(group_of(files.last().0)) {
            files.last().1 as int
        } else {
            0
        },
    decreases names.len(),
{
    let group = group_of(files.last().0);
    if names.len() > 0 {
        let init = names.drop_last();
        lemma_one_file_more(files, init);
        assert(names.contains(group) <==> init.contains(group) || names.last() == group) by {
            if names.contains(group) && names.last() != group {
                assert(init[names.index_of(group)] == group);
            }
            if init.contains(group) {
                assert(names[init.index_of(group)] == group);
            }
            assert(names[names.len() - 1] == names.last());
        }
        if init.contains(group) {
            assert(names[init.index_of(group)] == group);
            assert(names[names.len() - 1] != group);
        }
    }
}

proof fn lemma_no_files(names: Seq<Seq<char>>, files: Seq<(Seq<char>, u64)>)
    requires
        files.len() == 0,
    ensures
        total(names, |n: Seq<char>| bytes_in(files, n)) == 0,
    decreases names.len(),
{
    if names.len() > 0 {
        lemma_no_files(names.drop_last(), files);
    }
}

/// The groups hold all the bytes of the files, each file's once.
proof fn lemma_groups_hold_all(files: Seq<(Seq<char>, u64)>, names: Seq<Seq<char>>)
    requires
        names.no_duplicates(),
        forall|i: int| 0 <= i < files.len() ==> names.contains(group_of((#[trigger] files[i]).0)),
    ensures
        total(names, |n: Seq<char>| bytes_in(files, n)) == file_bytes(files),
    decreases files.len(),
{
    if files.len() > 0 {
        let init = files.drop_last();
        assert forall|i: int| 0 <= i < init.len() implies names.contains(
            group_of((#[trigger] init[i]).0),
        ) by {
            assert(init[i] == files[i]);
        }
        lemma_groups_hold_all(init, names);
        lemma_one_file_more(files, names);
        assert(files[files.len() - 1] == files.last());
    } else {
        lemma_no_files(names, files);
    }
}

/// The names of the groups, each once.
pub proof fn lemma_group_names(files: Seq<(Seq<char>, u64)>)
    ensures
        group_names(files).no_duplicates(),
        forall|i: int|
            0 <= i < files.len() ==> group_names(files).contains(group_of((#[trigger] files[i]).0)),
        forall|name: Seq<char>| #[trigger]
            group_names(files).contains(name) ==> exists|e: (Seq<char>, u64)|
                files.contains(e) && #[trigger] group_of(e.0) == name,
{
    let listed = files.map_values(|e: (Seq<char>, u64)| group_of(e.0));
    let names = group_names(files);
    crate::textmap::lemma_ordered(listed);
    assert forall|i: int, j: int| 0 <= i < names.len() && 0 <= j < names.len() && i
        != j implies names[i] != names[j] by {
        crate::textmap::law_order_is_total(names[i], names[j]);
        if i < j {
            assert(crate::text::before(names[i], names[j]));
        } else {
            assert(crate::text::before(names[j], names[i]));
        }
    }
    assert forall|i: int| 0 <= i < files.len() implies names.contains(
        group_of((#[trigger] files[i]).0),
    ) by {
        assert(listed[i] == group_of(files[i].0));
        assert(listed.contains(listed[i]));
    }
    assert forall|name: Seq<char>| #[trigger] names.contains(name) implies exists|
        e: (Seq<char>, u64),
    | files.contains(e) && #[trigger] group_of(e.0) == name by {
        assert(listed.contains(name));
        let i = listed.index_of(name);
        assert(files.contains(files[i]) && group_of(files[i].0) == name);
    }
}

/// What is carried over lists each group once, all of them on.
pub proof fn lemma_carry_groups(ours: Seq<(Seq<char>, u64)>, theirs: Seq<Seq<char>>)
    ensures
        ({
            let files = carried_files(ours, theirs);
            let carry = carry_of(ours, theirs);
            &&& carry.no_duplicates()
            &&& carry.len() == group_names(files).len()
            &&& forall|g: CarryView| #[trigger]
                carry.contains(g) <==> group_names(files).contains(g.name) && g == group_view(
                    files,
                    g.name,
                )
        }),
{
    let files = carried_files(ours, theirs);
    let names = group_names(files);
    let groups = groups_of(files);
    let keys = size_keys(groups);
    let carry = carry_of(ours, theirs);
    let order = crate::order::order_of(keys);
    lemma_group_names(files);
    crate::order::lemma_sorted_contains(groups, keys);
    crate::order::law_sorting_keeps_every_item(keys);
    assert forall|i: int, j: int| 0 <= i < carry.len() && 0 <= j < carry.len() && i
        != j implies carry[i] != carry[j] by {
        assert(order.contains(order[i]) && order.contains(order[j]));
        assert(order[i] != order[j]);
        assert(groups[order[i]].name == names[order[i]]);
        assert(groups[order[j]].name == names[order[j]]);
    }
    assert forall|g: CarryView| #[trigger] carry.contains(g) <==> names.contains(g.name) && g
        == group_view(files, g.name) by {
        if carry.contains(g) {
            assert(groups.contains(g));
            let i = groups.index_of(g);
            assert(names.contains(names[i]));
        }
        if names.contains(g.name) && g == group_view(files, g.name) {
            assert(groups[names.index_of(g.name)] == g);
            assert(groups.contains(g));
        }
    }
}

/// Behind a scan the groups make up all the bytes that are carried over, and each
/// group that is switched off takes away its own.
pub proof fn law_each_group_counts_its_own_bytes(
    ours: Seq<(Seq<char>, u64)>,
    theirs: Seq<Seq<char>>,
    switched: Seq<CarryView>,
)
    requires
        switched.len() == carry_of(ours, theirs).len(),
        forall|i: int|
            0 <= i < switched.len() ==> (#[trigger] switched[i]).bytes == carry_of(
                ours,
                theirs,
            )[i].bytes,
    ensures
        enabled_bytes(carry_of(ours, theirs)) == file_bytes(carried_files(ours, theirs)),
        enabled_bytes(switched) == file_bytes(carried_files(ours, theirs)) - disabled_bytes(
            switched,
        ),
{
    let files = carried_files(ours, theirs);
    let names = group_names(files);
    let carry = carry_of(ours, theirs);
    lemma_carry_groups(ours, theirs);
    lemma_group_names(files);
    let there = |n: Seq<char>| group_view(files, n);
    let back = |g: CarryView| g.name;
    let weight = |n: Seq<char>| bytes_in(files, n);
    let moved = |g: CarryView| group_weight(g);
    assert forall|i: int| 0 <= i < names.len() implies carry.contains(there(#[trigger] names[i]))
        && back(there(names[i])) == names[i] && moved(there(names[i])) == weight(names[i]) by {
        assert(names.contains(names[i]));
    }
    assert forall|j: int| 0 <= j < carry.len() implies names.contains(back(#[trigger] carry[j]))
        && there(back(carry[j])) == carry[j] by {
        assert(carry.contains(carry[j]));
    }
    lemma_total_moved(names, carry, there, back, weight, moved);
    lemma_groups_hold_all(files, names);
    lemma_enabled_and_disabled(carry);
    lemma_enabled_and_disabled(switched);
    lemma_same_weights(switched, carry);
    assert forall|i: int| 0 <= i < carry.len() implies (#[trigger] carry[i]).enabled by {
        assert(carry.contains(carry[i]));
    }
    lemma_none_disabled(carry);
}

proof fn lemma_count_split<T>(s: Seq<T>, p: spec_fn(T) -> bool, q: spec_fn(T) -> bool)
    requires
        forall|i: int| 0 <= i < s.len() ==> q(#[trigger] s[i]) == !p(s[i]),
    ensures
        count(s, p) + count(s, q) == s.len(),
    decreases s.len(),
{
    if s.len() > 0 {
        assert(q(s[s.len() - 1]) == !p(s[s.len() - 1]));
        assert forall|i: int| 0 <= i < s.len() - 1 implies q(#[trigger] s.drop_last()[i]) == !p(
            s.drop_last()[i],
        ) by {
            assert(s.drop_last()[i] == s[i]);
        }
        lemma_count_split(s.drop_last(), p, q);
    }
}

/// Behind a scan every conflict is unresolved, and each one that is reviewed makes
/// one less; nothing else counts.
pub proof fn law_each_review_leaves_one_less(
    w: World,
    ours: Seq<(Seq<char>, u64)>,
    theirs: Seq<(Seq<char>, u64)>,
    base: Seq<(Seq<char>, u64)>,
    reviewed: Seq<ConflictView>,
)
    requires
        reviewed.len() == w.whole_plan(ours, theirs, base).conflicts.len(),
    ensures
        ({
            let plan = w.whole_plan(ours, theirs, base);
            &&& count(plan.conflicts, |c: ConflictView| !c.reviewed) == plan.conflicts.len()
            &&& count(reviewed, |c: ConflictView| !c.reviewed) == plan.conflicts.len() - count(
                reviewed,
                |c: ConflictView| c.reviewed,
            )
        }),
{
    let plan = w.whole_plan(ours, theirs, base);
    law_every_shared_file_is_in_one_list(w, ours, theirs, base);
    let open = |c: ConflictView| !c.reviewed;
    assert forall|i: int| 0 <= i < plan.conflicts.len() implies open(
        #[trigger] plan.conflicts[i],
    ) by {
        assert(plan.conflicts.contains(plan.conflicts[i]));
    }
    crate::mods::lemma_count_all(plan.conflicts, open);
    lemma_count_split(reviewed, open, |c: ConflictView| c.reviewed);
}

/// A folder of configs that is no folder of jars and no noise.
pub open spec fn is_config_folder(dir: Seq<char>) -> bool {
    dir == "config"@ || dir == "serverutilities"@
}

/// `serverutilities/` is treated exactly like `config/`: no file below either is a
/// jar or noise, so files with the same bytes come to the same, and what only the
/// old instance has is carried over from both.
pub proof fn law_config_folders_are_treated_alike(
    w: World,
    a: Seq<char>,
    b: Seq<char>,
    rest: Seq<char>,
    theirs: Seq<Seq<char>>,
)
    requires
        is_config_folder(a),
        is_config_folder(b),
    ensures
        ({
            let x = a + "/"@ + rest;
            let y = b + "/"@ + rest;
            &&& !is_mod(x) && !is_mod(y)
            &&& (w.ours)(x) == (w.ours)(y) && (w.theirs)(x) == (w.theirs)(y) && (w.digest)(x) == (
            w.digest)(y) && (w.base)(x) == (w.base)(y) ==> w.verdict(x) == w.verdict(y)
            &&& is_carried(x, theirs) <==> !theirs.contains(x)
            &&& is_carried(y, theirs) <==> !theirs.contains(y)
        }),
{
    lemma_config_folder(a, rest);
    lemma_config_folder(b, rest);
}

pub proof fn lemma_config_folder(dir: Seq<char>, rest: Seq<char>)
    requires
        is_config_folder(dir),
    ensures
        !is_mod(dir + "/"@ + rest),
        !is_noise(top_of(dir + "/"@ + rest)),
{
    let rel = dir + "/"@ + rest;
    reveal_strlit("config");
    reveal_strlit("serverutilities");
    reveal_strlit("/");
    reveal_strlit("mods/");
    reveal_strlit("logs");
    reveal_strlit("crash-reports");
    reveal_strlit(".gtnh-updater");
    reveal_strlit(".fabric");
    reveal_strlit("usercache.json");
    reveal_strlit("usernamecache.json");
    assert("mods/"@[0] == 'm' && "mods/"@.len() == 5);
    assert(rel[0] == dir[0]);
    assert forall|j: int| 0 <= j < dir.len() implies rel[j] != '/' by {
        assert(rel[j] == dir[j]);
    }
    crate::text::lemma_find_is(rel, '/', 0, dir.len() as int);
    assert(rel.take(dir.len() as int) =~= dir);
    if is_noise(dir) {
        assert(dir.len() == 6 || dir.len() == 15);
        assert("logs"@.len() == 4 && "crash-reports"@.len() == 13 && ".gtnh-updater"@.len() == 13
            && ".fabric"@.len() == 7 && "usercache.json"@.len() == 14
            && "usernamecache.json"@.len() == 18);
    }
}

/// A file is carried over exactly if only the old instance has it, it is no jar
/// and no noise; it is then listed in the group of its top folder, in no other.
pub proof fn law_everything_else_just_moves(
    ours: Seq<(Seq<char>, u64)>,
    theirs: Seq<Seq<char>>,
    rel: Seq<char>,
    name: Seq<char>,
)
    ensures
        (exists|g: CarryView|
            #![trigger carry_of(ours, theirs).contains(g)]
            carry_of(ours, theirs).contains(g) && g.name == name && g.files.contains(rel))
            <==> entry_keys(ours).contains(rel) && is_carried(rel, theirs) && group_of(rel) == name,
        forall|g: CarryView|
            carry_of(ours, theirs).contains(g) ==> #[trigger] g.enabled && g == group_view(
                carried_files(ours, theirs),
                g.name,
            ),
{
    let files = carried_files(ours, theirs);
    let groups = groups_of(files);
    let names = group_names(files);
    let listed = files.map_values(|e: (Seq<char>, u64)| group_of(e.0));
    let f = |e: (Seq<char>, u64)| if_carried(e, theirs);
    let h = |e: (Seq<char>, u64)| if_in_group(e, name);
    crate::order::lemma_sorted_contains(groups, size_keys(groups));
    crate::textmap::lemma_ordered(listed);
    assert(files == collected(ours, f));
    crate::mods::lemma_collected(ours, f);
    assert(files_in(files, name) == collected(files, h));
    crate::mods::lemma_collected(files, h);
    assert forall|g: CarryView| carry_of(ours, theirs).contains(g) implies #[trigger] g.enabled && g
        == group_view(files, g.name) by {
        assert(groups.contains(g));
        let i = groups.index_of(g);
        assert(g == group_view(files, names[i]));
    }
    if exists|g: CarryView|
        #![trigger carry_of(ours, theirs).contains(g)]
        carry_of(ours, theirs).contains(g) && g.name == name && g.files.contains(rel) {
        let g = choose|g: CarryView|
            #![trigger carry_of(ours, theirs).contains(g)]
            carry_of(ours, theirs).contains(g) && g.name == name && g.files.contains(rel);
        assert(g.enabled);
        assert(files_in(files, name).contains(rel));
        let e = choose|e: (Seq<char>, u64)| files.contains(e) && #[trigger] h(e) == Some(rel);
        let o = choose|o: (Seq<char>, u64)| ours.contains(o) && #[trigger] f(o) == Some(e);
        assert(if_carried(o, theirs) == Some(e));
        assert(entry_keys(ours)[ours.index_of(o)] == rel);
    }
    if entry_keys(ours).contains(rel) && is_carried(rel, theirs) && group_of(rel) == name {
        let i = entry_keys(ours).index_of(rel);
        let o = ours[i];
        assert(f(o) == Some(o));
        assert(ours.contains(o));
        assert(files.contains(o));
        assert(h(o) == Some(rel));
        assert(files_in(files, name).contains(rel));
        let p = files.index_of(o);
        assert(listed[p] == name);
        assert(listed.contains(name));
        assert(names.contains(name));
        let q = names.index_of(name);
        assert(groups[q] == group_view(files, name));
        assert(groups.contains(group_view(files, name)));
        assert(carry_of(ours, theirs).contains(group_view(files, name)));
    }
}

// ---------------------------------------------------------------------------
// Laws on paths and bytes
// ---------------------------------------------------------------------------

/// A jar of the mod plan by its path: below `mods/`, with one of three endings.
pub open spec fn jar_path(rel: Seq<char>) -> bool {
    "mods/"@.is_prefix_of(rel) && (".jar"@.is_suffix_of(rel) || ".litemod"@.is_suffix_of(rel)
        || ".jar.disabled"@.is_suffix_of(rel))
}

/// Which files the mod plan decides, and that it sees all of them and no others.
pub proof fn law_jars_are_for_the_mod_plan(files: Seq<(Seq<char>, u64)>, e: (Seq<char>, u64))
    ensures
        mods_in(files).contains(e) <==> files.contains(e) && jar_path(e.0),
        is_mod(e.0) <==> jar_path(e.0),
{
    lemma_jar(e.0);
    let f = |e: (Seq<char>, u64)| if_mod(e);
    crate::mods::lemma_collected(files, f);
    assert(mods_in(files) == collected(files, f));
    if files.contains(e) && is_mod(e.0) {
        assert(f(e) == Some(e));
    }
    if mods_in(files).contains(e) {
        let a = choose|a: (Seq<char>, u64)| files.contains(a) && #[trigger] f(a) == Some(e);
        assert(if_mod(a) == Some(e));
    }
}

proof fn lemma_jar(rel: Seq<char>)
    ensures
        is_mod(rel) <==> jar_path(rel),
{
}

proof fn lemma_top(top: Seq<char>, rest: Seq<char>)
    requires
        !top.contains('/'),
    ensures
        top_of(top) == top,
        top_of(top + "/"@ + rest) == top,
        group_of(top) == "(loose files)"@,
        group_of(top + "/"@ + rest) == top,
{
    reveal_strlit("/");
    assert("/"@ =~= seq!['/']);
    crate::text::law_cutting_at_the_first(top, '/', rest);
    crate::text::lemma_find(top, '/', 0);
    if crate::text::find(top, '/') < top.len() {
        assert(top.contains(top[crate::text::find(top, '/')]));
    }
}

/// Every file that only the old instance has is carried over, in the group of its top
/// folder or among the loose files, unless it is a jar or its top name is one of six.
/// Nothing else is carried over, and every group is on.
pub proof fn law_only_six_names_stay_behind(
    ours: Seq<(Seq<char>, u64)>,
    theirs: Seq<(Seq<char>, u64)>,
    base: Seq<(Seq<char>, u64)>,
    rel: Seq<char>,
    size: u64,
    top: Seq<char>,
    rest: Seq<char>,
)
    requires
        ours.contains((rel, size)),
        !top.contains('/'),
        rel == top || rel == top + "/"@ + rest,
    ensures
        ({
            let carry = first_plan(ours, theirs, base).carry;
            let in_pack = exists|e: (Seq<char>, u64)| #[trigger] theirs.contains(e) && e.0 == rel;
            let stays = top == "logs"@ || top == "crash-reports"@ || top == ".gtnh-updater"@ || top
                == ".fabric"@ || top == "usercache.json"@ || top == "usernamecache.json"@;
            let group = if rel == top {
                "(loose files)"@
            } else {
                top
            };
            &&& !in_pack && !jar_path(rel) && !stays ==> exists|g: CarryView|
                #![trigger carry.contains(g)]
                carry.contains(g) && g.enabled && g.name == group && g.files.contains(rel)
            &&& in_pack || jar_path(rel) || stays ==> forall|g: CarryView| #[trigger]
                carry.contains(g) ==> !g.files.contains(rel)
            &&& forall|g: CarryView|
                #[trigger] carry.contains(g) && g.files.contains(rel) ==> g.name == group
            &&& forall|g: CarryView| #[trigger] carry.contains(g) ==> g.enabled
        }),
{
    let carry = first_plan(ours, theirs, base).carry;
    let keys = entry_keys(theirs);
    lemma_jar(rel);
    lemma_top(top, rest);
    reveal_strlit("/");
    if rel != top {
        assert(rel.len() > top.len());
    }
    assert(entry_keys(ours)[ours.index_of((rel, size))] == rel);
    let group = group_of(rel);
    law_everything_else_just_moves(ours, keys, rel, group);
    let in_pack = exists|e: (Seq<char>, u64)| #[trigger] theirs.contains(e) && e.0 == rel;
    if in_pack {
        let e = choose|e: (Seq<char>, u64)| #[trigger] theirs.contains(e) && e.0 == rel;
        assert(keys[theirs.index_of(e)] == rel);
    }
    if keys.contains(rel) {
        assert(theirs.contains(theirs[keys.index_of(rel)]));
    }
    assert forall|g: CarryView|
        #[trigger] carry.contains(g) && g.files.contains(rel) implies g.name == group && is_carried(
        rel,
        keys,
    ) by {
        law_everything_else_just_moves(ours, keys, rel, g.name);
    }
    assert forall|g: CarryView| #[trigger] carry.contains(g) implies g.enabled by {
        lemma_carry_groups(ours, keys);
    }
    if is_carried(rel, keys) {
        let g = choose|g: CarryView|
            #![trigger carry_of(ours, keys).contains(g)]
            carry_of(ours, keys).contains(g) && g.name == group && g.files.contains(rel);
        assert(carry.contains(g) && g.enabled && g.name == group && g.files.contains(rel));
    }
}

/// A bigger group is listed in front of a smaller one, and no group has the name of
/// another.
pub proof fn law_the_biggest_group_comes_first(
    ours: Seq<(Seq<char>, u64)>,
    theirs: Seq<(Seq<char>, u64)>,
    base: Seq<(Seq<char>, u64)>,
    i: int,
    j: int,
)
    requires
        countable(ours, entry_keys(theirs)),
        0 <= i < j < first_plan(ours, theirs, base).carry.len(),
    ensures
        ({
            let carry = first_plan(ours, theirs, base).carry;
            &&& carry[i].bytes >= carry[j].bytes
            &&& carry[i].bytes == carry[j].bytes ==> crate::text::before(
                carry[i].name,
                carry[j].name,
            )
            &&& carry[i].name != carry[j].name
        }),
{
    let keys_t = entry_keys(theirs);
    let files = carried_files(ours, keys_t);
    let groups = groups_of(files);
    let names = group_names(files);
    let keys = size_keys(groups);
    let order = crate::order::order_of(keys);
    let carry = carry_of(ours, keys_t);
    crate::order::law_sorting_keeps_every_item(keys);
    crate::order::law_sorting_is_stable(keys);
    crate::textmap::lemma_ordered(files.map_values(|e: (Seq<char>, u64)| group_of(e.0)));
    lemma_group_names(files);
    assert(order.contains(order[i]) && order.contains(order[j]));
    let a = order[i];
    let b = order[j];
    assert(carry[i] == groups[a] && carry[j] == groups[b]);
    assert(groups[a] == group_view(files, names[a]) && groups[b] == group_view(files, names[b]));
    lemma_bytes_in(files, names[a]);
    lemma_bytes_in(files, names[b]);
    assert(bytes_in(files, names[a]) <= u64::MAX && bytes_in(files, names[b]) <= u64::MAX);
    assert(keys[a] == ((u64::MAX - groups[a].bytes) as u64, Seq::<char>::empty()));
    assert(keys[b] == ((u64::MAX - groups[b].bytes) as u64, Seq::<char>::empty()));
    crate::textmap::law_order_is_total(Seq::empty(), Seq::empty());
    if groups[a].bytes == groups[b].bytes {
        assert(a < b);
        assert(crate::text::before(names[a], names[b]));
    }
    assert(a != b);
    assert(names[a] != names[b]);
}

/// Text by its characters is told from everything else: bytes that encode a text
/// without NUL.
pub open spec fn encodes(bytes: Seq<u8>, text: Seq<char>) -> bool {
    !text.contains('\0') && bytes == encode_utf8(text)
}

proof fn lemma_encodes(bytes: Seq<u8>, text: Seq<char>)
    requires
        encodes(bytes, text),
    ensures
        mergeable(bytes),
        decode_utf8(bytes) == text,
{
    crate::util::law_text_is_any_encoding_without_nul(bytes);
    encode_utf8_decode_utf8(text);
}

/// What becomes of two versions of a text, whatever characters they hold: the one that
/// was not changed gives way, and where both were changed the outcome is that of the
/// merge, as it is where it is clean and to be decided where it is not. Line endings,
/// scripts and control characters make no difference.
pub proof fn law_texts_are_merged_whatever_they_hold(
    ours: Seq<u8>,
    theirs: Seq<u8>,
    original: Seq<u8>,
    o: Seq<char>,
    t: Seq<char>,
    b: Seq<char>,
)
    requires
        encodes(ours, o),
        encodes(theirs, t),
        encodes(original, b),
    ensures
        ({
            let v = late_verdict(ours, theirs, Some(original));
            &&& o == b ==> v == VerdictView::TakePack
            &&& o != b && t == b ==> v == VerdictView::KeepYours
            &&& o != b && t != b ==> match diff3(b, o, t) {
                Ok(merged) => v == VerdictView::Merged(merged),
                Err(segments) => v == (VerdictView::Conflict {
                    merge: fresh_merge(segments),
                    no_base: false,
                }),
            }
        }),
        ({
            let v = late_verdict(ours, theirs, None);
            &&& v is Conflict
            &&& v->no_base
            &&& v->merge.manual is None
            &&& v->merge.segments == seq![
                SegmentView::Conflict { ours: o, base: Seq::empty(), theirs: t },
            ]
            &&& v->merge.hunks.len() == 1
            &&& v->merge.hunks[0].ours == o
            &&& v->merge.hunks[0].theirs == t
            &&& v->merge.hunks[0].base.len() == 0
            &&& v->merge.hunks[0].custom.len() == 0
            &&& v->merge.hunks[0].choice == Choice::Theirs
            &&& v->merge.rendered() == t
        }),
{
    lemma_encodes(ours, o);
    lemma_encodes(theirs, t);
    lemma_encodes(original, b);
    let m = whole_file(o, t);
    assert(m.segments.drop_last() =~= Seq::empty());
    reveal_with_fuel(crate::merge::composed, 2);
    reveal_with_fuel(crate::merge::conflict_count, 2);
    assert(Seq::<char>::empty() + t =~= t);
    assert(m.rendered() == t);
}

/// Where one of the versions is no text, both of them stay as they are and you choose
/// between them; each is told by its size.
pub proof fn law_what_is_no_text_is_never_merged(
    ours: Seq<u8>,
    theirs: Seq<u8>,
    original: Option<Seq<u8>>,
)
    requires
        (forall|s: Seq<char>| !encodes(ours, s)) || (forall|s: Seq<char>| !encodes(theirs, s)) || (
        original matches Some(b) && forall|s: Seq<char>| !encodes(b, s)),
        original matches Some(b) ==> ours != b && theirs != b,
    ensures
        late_verdict(ours, theirs, original) == (VerdictView::Binary {
            ours_size: ours.len() as int,
            theirs_size: theirs.len() as int,
        }),
{
    crate::util::law_text_is_any_encoding_without_nul(ours);
    crate::util::law_text_is_any_encoding_without_nul(theirs);
    if original is Some {
        crate::util::law_text_is_any_encoding_without_nul(original->0);
    }
    if mergeable(ours) {
        let s = choose|s: Seq<char>| !s.contains('\0') && ours == #[trigger] encode_utf8(s);
        assert(encodes(ours, s));
    }
    if mergeable(theirs) {
        let s = choose|s: Seq<char>| !s.contains('\0') && theirs == #[trigger] encode_utf8(s);
        assert(encodes(theirs, s));
    }
    if original is Some && mergeable(original->0) {
        let s = choose|s: Seq<char>| !s.contains('\0') && original->0 == #[trigger] encode_utf8(s);
        assert(encodes(original->0, s));
    }
}

/// No list of the plan names the file.
pub open spec fn unlisted(plan: PlanView, rel: Seq<char>) -> bool {
    &&& !plan.keep_yours.contains(rel)
    &&& forall|e: (Seq<char>, Seq<char>)| #[trigger] plan.auto_merged.contains(e) ==> e.0 != rel
    &&& forall|c: ConflictView| #[trigger] plan.conflicts.contains(c) ==> c.rel != rel
    &&& forall|c: BinaryView| #[trigger] plan.binary_conflicts.contains(c) ==> c.rel != rel
}

/// Where a file that both sides have ends up. Equal bytes need nothing; the checksum
/// of the original settles who changed the file where it tells; else the original
/// itself does, and a text that both changed is merged. A jar is in none of the lists,
/// and nor is a file that only one side has.
pub proof fn law_where_a_file_ends_up(
    w: World,
    ours: Seq<(Seq<char>, u64)>,
    theirs: Seq<(Seq<char>, u64)>,
    base: Seq<(Seq<char>, u64)>,
    rel: Seq<char>,
)
    ensures
        ({
            let p = w.whole_plan(ours, theirs, base);
            let o = (w.ours)(rel);
            let t = (w.theirs)(rel);
            let digest = (w.digest)(rel);
            let told = o == t || digest == Some(crc32_of(o)) || digest == Some(crc32_of(t));
            let shared = (exists|e: (Seq<char>, u64)| #[trigger] ours.contains(e) && e.0 == rel) && (
            exists|e: (Seq<char>, u64)| #[trigger] theirs.contains(e) && e.0 == rel);
            &&& !shared || jar_path(rel) ==> unlisted(p, rel)
            &&& shared && !jar_path(rel) ==> {
                &&& o == t ==> unlisted(p, rel)
                &&& o != t && digest == Some(crc32_of(o)) ==> unlisted(p, rel)
                &&& o != t && digest != Some(crc32_of(o)) && digest == Some(crc32_of(t))
                    ==> p.keep_yours.contains(rel)
                &&& !told ==> match (w.base)(rel) {
                    Some(b) => {
                        &&& o == b ==> unlisted(p, rel)
                        &&& o != b && t == b ==> p.keep_yours.contains(rel)
                        &&& o != b && t != b ==> forall|x: Seq<char>, y: Seq<char>, z: Seq<char>|
                            #![trigger encodes(o, x), encodes(t, y), encodes(b, z)]
                            encodes(o, x) && encodes(t, y) && encodes(b, z) ==> match diff3(
                                z,
                                x,
                                y,
                            ) {
                                Ok(merged) => p.auto_merged.contains((rel, merged)),
                                Err(segments) => p.conflicts.contains(
                                    ConflictView {
                                        rel,
                                        merge: fresh_merge(segments),
                                        no_base: false,
                                        reviewed: false,
                                    },
                                ),
                            }
                        &&& o != b && t != b && ((forall|s: Seq<char>| !encodes(o, s)) || (forall|
                            s: Seq<char>,
                        | !encodes(t, s)) || (forall|s: Seq<char>| !encodes(b, s)))
                            ==> p.binary_conflicts.contains(
                            BinaryView {
                                rel,
                                ours_size: o.len() as int,
                                theirs_size: t.len() as int,
                                take_pack: true,
                            },
                        )
                    },
                    None => {
                        &&& forall|x: Seq<char>, y: Seq<char>|
                            #![trigger encodes(o, x), encodes(t, y)]
                            encodes(o, x) && encodes(t, y) ==> exists|c: ConflictView|
                                #![trigger p.conflicts.contains(c)]
                                p.conflicts.contains(c) && c.rel == rel && c.no_base && !c.reviewed
                                    && c.merge.hunks.len() == 1 && c.merge.hunks[0].ours == x
                                    && c.merge.hunks[0].theirs == y
                        &&& (forall|s: Seq<char>| !encodes(o, s)) || (forall|s: Seq<char>|
                            !encodes(t, s)) ==> p.binary_conflicts.contains(
                            BinaryView {
                                rel,
                                ours_size: o.len() as int,
                                theirs_size: t.len() as int,
                                take_pack: true,
                            },
                        )
                    },
                }
            }
        }),
{
    let p = w.whole_plan(ours, theirs, base);
    let both = shared_files(entry_keys(ours), entry_keys(theirs));
    law_every_shared_file_is_in_one_list(w, ours, theirs, base);
    lemma_jar(rel);
    lemma_shared(ours, theirs, rel);
    let o = (w.ours)(rel);
    let t = (w.theirs)(rel);
    if !compared(both, rel) {
        assert forall|e: (Seq<char>, Seq<char>)| #[trigger] p.auto_merged.contains(e) implies e.0
            != rel by {
            assert(p.auto_merged.contains((e.0, e.1)));
        }
    } else {
        assert forall|e: (Seq<char>, Seq<char>)|
            #[trigger] p.auto_merged.contains(e) && e.0 == rel implies w.verdict(rel)
            == VerdictView::Merged(e.1) by {
            assert(p.auto_merged.contains((e.0, e.1)));
        }
        let v = w.verdict(rel);
        match (w.base)(rel) {
            Some(b) => {
                assert forall|x: Seq<char>, y: Seq<char>, z: Seq<char>|
                    #![trigger encodes(o, x), encodes(t, y), encodes(b, z)]
                    early_verdict(o, t, (w.digest)(rel)) is None && o != b && t != b && encodes(o, x)
                        && encodes(t, y) && encodes(b, z) implies match diff3(z, x, y) {
                    Ok(merged) => p.auto_merged.contains((rel, merged)),
                    Err(segments) => p.conflicts.contains(
                        ConflictView {
                            rel,
                            merge: fresh_merge(segments),
                            no_base: false,
                            reviewed: false,
                        },
                    ),
                } by {
                    law_texts_are_merged_whatever_they_hold(o, t, b, x, y, z);
                }
                if o != b && t != b && ((forall|s: Seq<char>| !encodes(o, s)) || (forall|
                    s: Seq<char>,
                | !encodes(t, s)) || (forall|s: Seq<char>| !encodes(b, s))) {
                    law_what_is_no_text_is_never_merged(o, t, Some(b));
                }
            },
            None => {
                assert forall|x: Seq<char>, y: Seq<char>|
                    #![trigger encodes(o, x), encodes(t, y)]
                    early_verdict(o, t, (w.digest)(rel)) is None && encodes(o, x) && encodes(
                        t,
                        y,
                    ) implies exists|c: ConflictView|
                    #![trigger p.conflicts.contains(c)]
                    p.conflicts.contains(c) && c.rel == rel && c.no_base && !c.reviewed
                        && c.merge.hunks.len() == 1 && c.merge.hunks[0].ours == x
                        && c.merge.hunks[0].theirs == y by {
                    law_texts_are_merged_whatever_they_hold(o, t, o, x, y, x);
                    let c = ConflictView {
                        rel,
                        merge: v->merge,
                        no_base: true,
                        reviewed: false,
                    };
                    assert(p.conflicts.contains(c));
                }
                if (forall|s: Seq<char>| !encodes(o, s)) || (forall|s: Seq<char>| !encodes(t, s)) {
                    law_what_is_no_text_is_never_merged(o, t, None);
                }
            },
        }
    }
}

proof fn lemma_shared(
    ours: Seq<(Seq<char>, u64)>,
    theirs: Seq<(Seq<char>, u64)>,
    rel: Seq<char>,
)
    ensures
        shared_files(entry_keys(ours), entry_keys(theirs)).contains(rel) <==> (exists|
            e: (Seq<char>, u64),
        | #[trigger] ours.contains(e) && e.0 == rel) && (exists|e: (Seq<char>, u64)| #[trigger]
            theirs.contains(e) && e.0 == rel),
{
    let os = entry_keys(ours);
    let ts = entry_keys(theirs);
    let f = |x: Seq<char>| if_shared(x, os);
    crate::mods::lemma_collected(ts, f);
    assert(shared_files(os, ts) == collected(ts, f));
    lemma_entry_keys(ours, rel);
    lemma_entry_keys(theirs, rel);
    if ts.contains(rel) && os.contains(rel) {
        assert(f(rel) == Some(rel));
    }
    if shared_files(os, ts).contains(rel) {
        let a = choose|a: Seq<char>| ts.contains(a) && #[trigger] f(a) == Some(rel);
        assert(if_shared(a, os) == Some(rel));
    }
}

proof fn lemma_entry_keys(files: Seq<(Seq<char>, u64)>, rel: Seq<char>)
    ensures
        entry_keys(files).contains(rel) <==> exists|e: (Seq<char>, u64)| #[trigger]
            files.contains(e) && e.0 == rel,
{
    if entry_keys(files).contains(rel) {
        let i = entry_keys(files).index_of(rel);
        assert(files.contains(files[i]) && files[i].0 == rel);
    }
    if exists|e: (Seq<char>, u64)| #[trigger] files.contains(e) && e.0 == rel {
        let e = choose|e: (Seq<char>, u64)| #[trigger] files.contains(e) && e.0 == rel;
        assert(entry_keys(files)[files.index_of(e)] == rel);
    }
}

/// The plan knows that the original is missing exactly where nothing of it is known,
/// and starts with no file compared.
pub proof fn law_a_plan_starts_empty(
    ours: Seq<(Seq<char>, u64)>,
    theirs: Seq<(Seq<char>, u64)>,
    base: Seq<(Seq<char>, u64)>,
)
    ensures
        ({
            let p = first_plan(ours, theirs, base);
            &&& p.base_missing <==> base.len() == 0
            &&& p.auto_merged.len() == 0 && p.conflicts.len() == 0 && p.binary_conflicts.len() == 0
            &&& p.keep_yours.len() == 0 && p.take_pack == 0 && p.identical == 0
        }),
{
}

/// The scan reports when it comes to every hundred and twenty-eighth file, and at no
/// other.
pub proof fn law_reports_come_at_even_distances(shared: Seq<Seq<char>>, n: int)
    requires
        0 <= n < shared.len(),
    ensures
        n % 128 == 0 <==> stop_at(shared, n) == (n, StageView::Report),
        n % 128 != 0 && !jar_path(shared[n]) ==> stop_at(shared, n) == (n, StageView::Look),
        n % 128 != 0 && jar_path(shared[n]) ==> stop_at(shared, n) == stop_at(shared, n + 1),
{
    lemma_jar(shared[n]);
    if n % 128 != 0 && is_mod(shared[n]) {
        lemma_stop_behind(shared, n + 1);
    }
}

proof fn lemma_stop_behind(shared: Seq<Seq<char>>, n: int)
    requires
        0 <= n <= shared.len(),
    ensures
        stop_at(shared, n).0 >= n,
    decreases shared.len() - n,
{
    if n < shared.len() && n % 128 != 0 && is_mod(shared[n]) {
        lemma_stop_behind(shared, n + 1);
    }
}

/// Every file that was found is indexed under its normalised path, with its size.
pub proof fn law_files_are_indexed_by_their_path(found: Seq<(String, u64)>, i: int)
    requires
        0 <= i < found.len(),
    ensures
        normalised(found).len() == found.len(),
        normalised(found)[i].0 == crate::util::without_dots(
            crate::util::forward_slashes(found[i].0@),
        ),
        normalised(found)[i].1 == found[i].1,
{
}

// ---------------------------------------------------------------------------
// Laws on what the calls give
// ---------------------------------------------------------------------------

/// Which files the mod plan decides.
pub proof fn law_which_files_are_jars(rel: &str, r: bool)
    requires
        call_ensures(is_mod_file, (rel,), r),
    ensures
        r <==> "mods/"@.is_prefix_of(rel@) && (".jar"@.is_suffix_of(rel@)
            || ".litemod"@.is_suffix_of(rel@) || ".jar.disabled"@.is_suffix_of(rel@)),
{
    lemma_jar(rel@);
}

/// What the two versions and the checksum of the original settle: nothing where neither
/// version has it.
pub proof fn law_what_a_checksum_settles(
    ours: Vec<u8>,
    theirs: Vec<u8>,
    digest: Option<u32>,
    r: Option<Verdict>,
)
    requires
        call_ensures(settle, (&ours, &theirs, digest), r),
    ensures
        ours@ == theirs@ ==> (r matches Some(v) && v is Identical),
        ours@ != theirs@ && digest == Some(crc32_of(ours@)) ==> (r matches Some(v) && v is TakePack),
        ours@ != theirs@ && digest != Some(crc32_of(ours@)) && digest == Some(crc32_of(theirs@))
            ==> (r matches Some(v) && v is KeepYours),
        ours@ != theirs@ && digest != Some(crc32_of(ours@)) && digest != Some(crc32_of(theirs@))
            ==> r is None,
{
}

/// What the original settles. Texts are merged whatever characters they hold: where the
/// merge is clean the outcome is the merged text, and never a choice between two files.
pub proof fn law_what_the_original_settles(
    ours: Vec<u8>,
    theirs: Vec<u8>,
    original: Vec<u8>,
    o: Seq<char>,
    t: Seq<char>,
    b: Seq<char>,
    r: Verdict,
)
    requires
        call_ensures(settle_by_original, (&ours, &theirs, Some(&original)), r),
    ensures
        ours@ == original@ ==> r is TakePack,
        ours@ != original@ && theirs@ == original@ ==> r is KeepYours,
        ours@ != original@ && theirs@ != original@ && encodes(ours@, o) && encodes(theirs@, t)
            && encodes(original@, b) ==> match diff3(b, o, t) {
            Ok(merged) => r matches Verdict::Merged(text) && text@ == merged,
            Err(segments) => r matches Verdict::Conflict { merge, no_base } && merge@
                == fresh_merge(segments) && !no_base,
        },
        ours@ != original@ && theirs@ != original@ && ((forall|s: Seq<char>| !encodes(ours@, s)) || (
        forall|s: Seq<char>| !encodes(theirs@, s)) || (forall|s: Seq<char>|
            !encodes(original@, s))) ==> (r matches Verdict::Binary { ours_size, theirs_size }
            && ours_size == ours@.len() && theirs_size == theirs@.len()),
{
    if encodes(ours@, o) && encodes(theirs@, t) && encodes(original@, b) {
        law_texts_are_merged_whatever_they_hold(ours@, theirs@, original@, o, t, b);
    }
    if ours@ != original@ && theirs@ != original@ && ((forall|s: Seq<char>| !encodes(ours@, s)) || (
    forall|s: Seq<char>| !encodes(theirs@, s)) || (forall|s: Seq<char>| !encodes(original@, s))) {
        law_what_is_no_text_is_never_merged(ours@, theirs@, Some(original@));
    }
}

/// What a plan starts with: every file that only the old instance has is carried over
/// unless it is a jar or its top name is one of the six, and the mods are planned.
pub proof fn law_what_a_plan_starts_with(
    input: BuildInput<'_>,
    base: TextMap<u64>,
    r: Scan,
    rel: Seq<char>,
    size: u64,
    top: Seq<char>,
    rest: Seq<char>,
)
    requires
        call_ensures(build, (input, &base), r),
        input.ours.pairs().contains((rel, size)),
        !top.contains('/'),
        rel == top || rel == top + "/"@ + rest,
        forall|e: (Seq<char>, u64)| #[trigger] input.theirs.pairs().contains(e) ==> e.0 != rel,
        !jar_path(rel),
    ensures
        top != "logs"@ && top != "crash-reports"@ && top != ".gtnh-updater"@ && top != ".fabric"@
            && top != "usercache.json"@ && top != "usernamecache.json"@ ==> exists|g: CarryView|
            #![trigger r@.plan.carry.contains(g)]
            r@.plan.carry.contains(g) && g.enabled && g.files.contains(rel) && g.name == (if rel
                == top {
                "(loose files)"@
            } else {
                top
            }),
        top == "logs"@ || top == "crash-reports"@ || top == ".gtnh-updater"@ || top == ".fabric"@
            || top == "usercache.json"@ || top == "usernamecache.json"@ ==> forall|g: CarryView|
            #[trigger] r@.plan.carry.contains(g) ==> !g.files.contains(rel),
        r@.plan.mods == plan_of(
            entry_keys(mods_in(base.pairs())),
            mods_in(input.ours.pairs()),
            entry_keys(mods_in(input.theirs.pairs())),
        ),
{
    law_only_six_names_stay_behind(
        input.ours.pairs(),
        input.theirs.pairs(),
        base.pairs(),
        rel,
        size,
        top,
        rest,
    );
    let carry = r@.plan.carry;
    assert(carry == first_plan(
        input.ours.pairs(),
        input.theirs.pairs(),
        base.pairs(),
    ).carry);
    let group = if rel == top {
        "(loose files)"@
    } else {
        top
    };
    if top != "logs"@ && top != "crash-reports"@ && top != ".gtnh-updater"@ && top != ".fabric"@
        && top != "usercache.json"@ && top != "usernamecache.json"@ {
        let g = choose|g: CarryView|
            #![trigger carry.contains(g)]
            carry.contains(g) && g.enabled && g.name == group && g.files.contains(rel);
        assert(carry.contains(g));
    }
}

/// A conflict counts as open exactly until it is reviewed, and a group of files counts
/// with its bytes exactly while it is carried over.
pub proof fn law_what_is_still_open(
    p: Plan,
    q: Plan,
    open: usize,
    more: usize,
    bytes: u64,
    grown: u64,
    c: ConflictView,
    g: CarryView,
)
    requires
        call_ensures(Plan::unresolved, (&p,), open),
        call_ensures(Plan::unresolved, (&q,), more),
        call_ensures(Plan::carry_bytes, (&p,), bytes),
        call_ensures(Plan::carry_bytes, (&q,), grown),
        q@.conflicts == p@.conflicts.push(c),
        q@.carry == p@.carry.push(g),
    ensures
        p.conflicts.len() == 0 ==> open == 0,
        c.reviewed ==> more == open,
        !c.reviewed ==> more == open + 1,
        p.carry.len() == 0 ==> bytes == 0,
        g.enabled ==> grown == bytes + g.bytes,
        !g.enabled ==> grown == bytes,
{
    assert(q@.conflicts.drop_last() =~= p@.conflicts);
    assert(q@.carry.drop_last() =~= p@.carry);
}

/// What a scan asks for: it looks at the file it has come to, counts to the number of
/// files that both sides have, and ends with a report that nothing is left.
pub proof fn law_what_a_scan_asks_for(s: Scan, r: Action)
    requires
        call_ensures(Scan::action, (&s,), r),
    ensures
        r matches Action::Look(rel) ==> rel@ == s@.shared[s@.next] && s@.stage is Look,
        r matches Action::Ask(rel) ==> rel@ == s@.shared[s@.next] && s@.stage is Ask,
        r matches Action::Report { done, total, label } ==> total == s@.shared.len() && (label@
            == "done"@ && done == total || label@ == s@.shared[s@.next] && done == s@.next),
        r is Report <==> s@.stage is Report || s@.stage is Close,
        s@.stage is Close ==> (r matches Action::Report { done, total, label } && label@ == "done"@
            && done == total),
        r is Finish <==> s@.stage is Done,
        r is Cancelled <==> s@.stage is Cancelled,
{
}

} // verus!
