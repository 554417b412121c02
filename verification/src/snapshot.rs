//! Where the pristine files of the installed version come from: a snapshot saved
//! by a previous update, the old build's own pack, or nowhere.
//!
//! A snapshot is one zip holding the pack's text files plus a manifest of
//! everything the pack contained, one line for each file: its path, its size and
//! its CRC-32, parted by tabs.
use vstd::prelude::*;
use vstd::string::*;

use crate::mods::collected;
use crate::pack::Pack;
use crate::plan::{is_mod, is_mod_file, MAX_BASE_FILE};
use crate::text::{
    bare_lines, cut_last, decimal, decimal_of, lines, parse_nat, rsplit_once, run_on, strip_prefix,
    texts, u32_in, u64_in, without_prefix,
};
use crate::textmap::TextMap;
use crate::util::{is_text, mergeable};

verus! {

/// The entry of a snapshot that lists everything.
pub const MANIFEST: &'static str = "manifest.tsv";

/// Where a snapshot keeps the files.
pub const FILES_PREFIX: &'static str = "files/";

/// How often writing a snapshot tells how far it has come.
pub const SNAPSHOT_REPORT_EVERY: usize = 256;

// ---------------------------------------------------------------------------
// The manifest
// ---------------------------------------------------------------------------

/// A line of the manifest: path, size and checksum, where it is one.
pub struct ManifestLine {
    pub rel: Seq<char>,
    pub size: u64,
    pub crc: Option<u32>,
}

pub open spec fn number_or(n: Option<nat>, otherwise: nat) -> nat {
    match n {
        Some(n) => n,
        None => otherwise,
    }
}

/// What a line says. A path may hold tabs, so the line is cut from its end; a
/// size that is no number counts as zero.
pub open spec fn manifest_line(line: Seq<char>) -> Option<ManifestLine> {
    match rsplit_once(line, '\t') {
        Some((front, crc)) => match rsplit_once(front, '\t') {
            Some((rel, size)) => Some(
                ManifestLine {
                    rel,
                    size: number_or(parse_nat(size, u64::MAX as nat), 0) as u64,
                    crc: match parse_nat(crc, u32::MAX as nat) {
                        Some(n) => Some(n as u32),
                        None => None,
                    },
                },
            ),
            None => None,
        },
        None => None,
    }
}

pub open spec fn manifest_of(text: Seq<char>) -> Seq<ManifestLine> {
    collected(lines(text), |line: Seq<char>| manifest_line(line))
}

pub open spec fn sizes_in(all: Seq<ManifestLine>) -> Seq<(Seq<char>, u64)> {
    all.map_values(|l: ManifestLine| (l.rel, l.size))
}

pub open spec fn crc_entry(l: ManifestLine) -> Option<(Seq<char>, u32)> {
    match l.crc {
        Some(crc) => Some((l.rel, crc)),
        None => None,
    }
}

pub open spec fn digests_in(all: Seq<ManifestLine>) -> Seq<(Seq<char>, u32)> {
    collected(all, |l: ManifestLine| crc_entry(l))
}

/// A file of the pack, for the manifest.
#[derive(Debug, Clone)]
pub struct Listed {
    pub rel: String,
    pub size: u64,
    pub crc: u32,
}

/// The line that is written for a file.
pub open spec fn written_line(rel: Seq<char>, size: u64, crc: u32) -> Seq<char> {
    (rel.push('\t') + decimal(size as nat)).push('\t') + decimal(crc as nat)
}

pub open spec fn written_lines(files: Seq<Listed>) -> Seq<Seq<char>> {
    files.map_values(|f: Listed| written_line(f.rel@, f.size, f.crc))
}

pub open spec fn manifest_text(files: Seq<Listed>) -> Seq<char> {
    run_on(written_lines(files).map_values(|l: Seq<char>| l.push('\n')))
}

/// The manifest lists everything, jars included, so the next update can still
/// tell "the pack removed this mod" from "you added it".
pub fn write_manifest(files: &Vec<Listed>) -> (r: String)
    ensures
        r@ == manifest_text(files@),
{
    let mut out = String::new();
    let ghost rows = written_lines(files@).map_values(|l: Seq<char>| l.push('\n'));
    let mut i: usize = 0;
    assert(rows.take(0) =~= Seq::empty());
    while i < files.len()
        invariant
            rows == written_lines(files@).map_values(|l: Seq<char>| l.push('\n')),
            i <= files.len(),
            out@ == run_on(rows.take(i as int)),
        decreases files.len() - i,
    {
        let ghost o0 = out@;
        let ghost row = written_line(files@[i as int].rel@, files@[i as int].size, files@[i as int].crc).push('\n');
        proof {
            assert(rows.take(i + 1).drop_last() =~= rows.take(i as int));
            assert(rows.take(i + 1).last() == row);
        }
        out.append(files[i].rel.as_str());
        out.push('\t');
        out.append(decimal_of(files[i].size).as_str());
        out.push('\t');
        out.append(decimal_of(files[i].crc as u64).as_str());
        out.push('\n');
        assert(out@ =~= o0 + row);
        i += 1;
    }
    assert(rows.take(i as int) =~= rows);
    out
}

/// Whether a snapshot may keep a file: jars are never text and are the bulk of
/// the pack, and a file that large is not something anyone hand-edits.
pub fn in_snapshot(rel: &str, size: u64) -> (r: bool)
    ensures
        r == (!is_mod(rel@) && size <= 33_554_432),
{
    !is_mod_file(rel) && size <= MAX_BASE_FILE
}

// ---------------------------------------------------------------------------
// Saving a snapshot
// ---------------------------------------------------------------------------

/// A file as the manifest lists it.
pub struct ListedView {
    pub rel: Seq<char>,
    pub size: u64,
    pub crc: u32,
}

impl View for Listed {
    type V = ListedView;

    open spec fn view(&self) -> ListedView {
        ListedView { rel: self.rel@, size: self.size, crc: self.crc }
    }
}

pub open spec fn listed_views(s: Seq<Listed>) -> Seq<ListedView> {
    s.map_values(|f: Listed| f@)
}

/// A snapshot may keep the file.
pub open spec fn may_keep(f: ListedView) -> bool {
    !is_mod(f.rel) && f.size <= MAX_BASE_FILE
}

/// What saving a snapshot waits for.
#[derive(Debug)]
enum SaveStage {
    /// The manifest to be written.
    Manifest,
    /// To tell how far it has come.
    Report,
    /// The bytes of the file.
    Read,
    /// These bytes of the file to be written.
    Store(Vec<u8>),
    /// The archive to be closed and put in its place.
    Seal,
    /// To tell that everything is saved.
    Close,
    /// Nothing: that has been told.
    Done,
    /// Nothing: the user does not want to go on.
    Cancelled,
}

/// A stage as bytes.
pub enum SaveStageView {
    Manifest,
    Report,
    Read,
    Store(Seq<u8>),
    Seal,
    Close,
    Done,
    Cancelled,
}

impl SaveStage {
    pub closed spec fn view(&self) -> SaveStageView {
        match *self {
            SaveStage::Manifest => SaveStageView::Manifest,
            SaveStage::Report => SaveStageView::Report,
            SaveStage::Read => SaveStageView::Read,
            SaveStage::Store(bytes) => SaveStageView::Store(bytes@),
            SaveStage::Seal => SaveStageView::Seal,
            SaveStage::Close => SaveStageView::Close,
            SaveStage::Done => SaveStageView::Done,
            SaveStage::Cancelled => SaveStageView::Cancelled,
        }
    }
}

/// What saving a snapshot wants.
#[derive(Debug)]
pub enum SaveAction<'a> {
    /// Write the manifest, which is this text, as the entry [`MANIFEST`].
    Manifest(String),
    /// Tell the user that `done` of `total` files are looked at, and ask whether to
    /// go on.
    Report { done: usize, total: usize },
    /// Read the file.
    Read(&'a str),
    /// Write these bytes as that entry.
    Store { entry: String, bytes: &'a Vec<u8> },
    /// Close the archive and put it in its place.
    Seal,
    /// Nothing: the snapshot is saved.
    Finish,
    /// Nothing: the user has cancelled.
    Cancelled,
}

/// What saving a snapshot is told.
#[derive(Debug)]
pub enum SaveEvent {
    /// What was to be written is written.
    Written,
    /// The report was made, and the user lets it go on or does not.
    Reported(bool),
    /// The bytes of the file, if it can be read.
    Read(Option<Vec<u8>>),
}

/// An event as bytes.
pub enum SaveEventView {
    Written,
    Reported(bool),
    Read(Option<Seq<u8>>),
}

impl View for SaveEvent {
    type V = SaveEventView;

    open spec fn view(&self) -> SaveEventView {
        match *self {
            SaveEvent::Written => SaveEventView::Written,
            SaveEvent::Reported(go_on) => SaveEventView::Reported(go_on),
            SaveEvent::Read(bytes) => SaveEventView::Read(crate::plan::optional_bytes(bytes)),
        }
    }
}

/// A snapshot that is being saved, file by file. It says what it wants done, and is
/// told what came of it.
#[derive(Debug)]
pub struct Saving {
    files: Vec<Listed>,
    next: usize,
    stage: SaveStage,
}

/// A snapshot that is being saved, as texts and bytes.
pub struct SavingView {
    pub files: Seq<ListedView>,
    pub next: int,
    pub stage: SaveStageView,
}

impl View for Saving {
    type V = SavingView;

    closed spec fn view(&self) -> SavingView {
        SavingView {
            files: listed_views(self.files@),
            next: self.next as int,
            stage: self.stage@,
        }
    }
}

/// Where saving stops next, coming to the file `n`: it reports at every
/// [`SNAPSHOT_REPORT_EVERY`]th file, and passes over what a snapshot does not keep.
pub open spec fn save_stop(files: Seq<ListedView>, n: int) -> (int, SaveStageView)
    decreases files.len() - n,
{
    if n >= files.len() {
        (files.len() as int, SaveStageView::Seal)
    } else if n % (SNAPSHOT_REPORT_EVERY as int) == 0 {
        (n, SaveStageView::Report)
    } else if may_keep(files[n]) {
        (n, SaveStageView::Read)
    } else {
        save_stop(files, n + 1)
    }
}

impl SavingView {
    pub open spec fn at(self, stage: SaveStageView) -> SavingView {
        SavingView { stage, ..self }
    }

    /// Coming to the file `n`.
    pub open spec fn from(self, n: int) -> SavingView {
        let (next, stage) = save_stop(self.files, n);
        SavingView { files: self.files, next, stage }
    }

    /// Once it has been told. Only text is stored. The answer to the last report
    /// changes nothing, and nor does what it did not ask for.
    pub open spec fn told(self, e: SaveEventView) -> SavingView {
        match (self.stage, e) {
            (SaveStageView::Manifest, SaveEventView::Written) => self.from(0),
            (SaveStageView::Report, SaveEventView::Reported(go_on)) => if !go_on {
                self.at(SaveStageView::Cancelled)
            } else if may_keep(self.files[self.next]) {
                self.at(SaveStageView::Read)
            } else {
                self.from(self.next + 1)
            },
            (SaveStageView::Read, SaveEventView::Read(read)) => match read {
                Some(bytes) => if mergeable(bytes) {
                    self.at(SaveStageView::Store(bytes))
                } else {
                    self.from(self.next + 1)
                },
                None => self.from(self.next + 1),
            },
            (SaveStageView::Store(_), SaveEventView::Written) => self.from(self.next + 1),
            (SaveStageView::Seal, SaveEventView::Written) => self.at(SaveStageView::Close),
            (SaveStageView::Close, SaveEventView::Reported(_)) => self.at(SaveStageView::Done),
            _ => self,
        }
    }
}

/// Before anything is saved.
pub open spec fn first_saving(files: Seq<ListedView>) -> SavingView {
    SavingView { files, next: 0, stage: SaveStageView::Manifest }
}

fn next_save(files: &Vec<Listed>, from: usize) -> (r: (usize, SaveStage))
    requires
        from <= files.len(),
    ensures
        (r.0 as int, r.1@) == save_stop(listed_views(files@), from as int),
        r.0 <= files.len(),
        r.0 < files.len() || r.1@ is Seal,
        !(r.1@ is Store),
{
    let mut n: usize = from;
    while n < files.len()
        invariant
            from <= n <= files.len(),
            save_stop(listed_views(files@), from as int) == save_stop(
                listed_views(files@),
                n as int,
            ),
        decreases files.len() - n,
    {
        if n % SNAPSHOT_REPORT_EVERY == 0 {
            return (n, SaveStage::Report);
        }
        assert(listed_views(files@)[n as int] == files@[n as int]@);
        if in_snapshot(files[n].rel.as_str(), files[n].size) {
            return (n, SaveStage::Read);
        }
        n += 1;
    }
    (n, SaveStage::Seal)
}

impl Saving {
    pub closed spec fn wf(self) -> bool {
        &&& self.next <= self.files.len()
        &&& (self.stage is Report || self.stage is Read || self.stage is Store) ==> self.next
            < self.files.len()
    }

    /// What is to be done next.
    pub fn action(&self) -> (r: SaveAction<'_>)
        requires
            self.wf(),
        ensures
            match self@.stage {
                SaveStageView::Manifest => r matches SaveAction::Manifest(text) && text@
                    == manifest_for(self@.files),
                SaveStageView::Report => r matches SaveAction::Report { done, total } && done
                    == self@.next && total == self@.files.len(),
                SaveStageView::Read => r matches SaveAction::Read(rel) && rel@
                    == self@.files[self@.next].rel,
                SaveStageView::Store(b) => r matches SaveAction::Store { entry, bytes } && entry@
                    == "files/"@ + self@.files[self@.next].rel && bytes@ == b,
                SaveStageView::Seal => r is Seal,
                SaveStageView::Close => r matches SaveAction::Report { done, total } && done
                    == self@.files.len() && total == self@.files.len(),
                SaveStageView::Done => r is Finish,
                SaveStageView::Cancelled => r is Cancelled,
            },
    {
        let total = self.files.len();
        match &self.stage {
            SaveStage::Manifest => {
                proof {
                    lemma_manifest_for(self.files@);
                }
                SaveAction::Manifest(write_manifest(&self.files))
            },
            SaveStage::Report => SaveAction::Report { done: self.next, total },
            SaveStage::Read => {
                assert(self@.files[self.next as int] == self.files@[self.next as int]@);
                SaveAction::Read(self.files[self.next].rel.as_str())
            },
            SaveStage::Store(bytes) => {
                assert(self@.files[self.next as int] == self.files@[self.next as int]@);
                let mut entry = FILES_PREFIX.to_owned();
                entry.append(self.files[self.next].rel.as_str());
                SaveAction::Store { entry, bytes }
            },
            SaveStage::Seal => SaveAction::Seal,
            SaveStage::Close => SaveAction::Report { done: total, total },
            SaveStage::Done => SaveAction::Finish,
            SaveStage::Cancelled => SaveAction::Cancelled,
        }
    }

    /// Tell what came of it.
    pub fn tell(self, e: SaveEvent) -> (r: Self)
        requires
            self.wf(),
        ensures
            r.wf(),
            r@ == self@.told(e@),
    {
        let Saving { files, next, stage } = self;
        assert(next < files.len() ==> listed_views(files@)[next as int] == files@[next as int]@);
        match (stage, e) {
            (SaveStage::Manifest, SaveEvent::Written) => {
                let (next, stage) = next_save(&files, 0);
                Saving { files, next, stage }
            },
            (SaveStage::Report, SaveEvent::Reported(go_on)) => {
                if !go_on {
                    Saving { files, next, stage: SaveStage::Cancelled }
                } else if in_snapshot(files[next].rel.as_str(), files[next].size) {
                    Saving { files, next, stage: SaveStage::Read }
                } else {
                    let (next, stage) = next_save(&files, next + 1);
                    Saving { files, next, stage }
                }
            },
            (SaveStage::Read, SaveEvent::Read(read)) => {
                match read {
                    Some(bytes) => {
                        if is_text(bytes.as_slice()) {
                            Saving { files, next, stage: SaveStage::Store(bytes) }
                        } else {
                            let (next, stage) = next_save(&files, next + 1);
                            Saving { files, next, stage }
                        }
                    },
                    None => {
                        let (next, stage) = next_save(&files, next + 1);
                        Saving { files, next, stage }
                    },
                }
            },
            (SaveStage::Store(_), SaveEvent::Written) => {
                let (next, stage) = next_save(&files, next + 1);
                Saving { files, next, stage }
            },
            (SaveStage::Seal, SaveEvent::Written) => Saving { files, next, stage: SaveStage::Close },
            (SaveStage::Close, SaveEvent::Reported(_)) => {
                Saving { files, next, stage: SaveStage::Done }
            },
            (stage, _) => Saving { files, next, stage },
        }
    }
}

/// The manifest of these files.
pub open spec fn manifest_for(files: Seq<ListedView>) -> Seq<char> {
    run_on(files.map_values(|f: ListedView| written_line(f.rel, f.size, f.crc).push('\n')))
}

proof fn lemma_manifest_for(files: Seq<Listed>)
    ensures
        manifest_for(listed_views(files)) == manifest_text(files),
{
    assert(listed_views(files).map_values(
        |f: ListedView| written_line(f.rel, f.size, f.crc).push('\n'),
    ) =~= written_lines(files).map_values(|l: Seq<char>| l.push('\n')));
}

/// Save the pack's pristine text files so the *next* update has a merge base, as
/// one compressed archive. To be done on the freshly extracted instance, before
/// any merged output is written over it.
pub fn write_base_snapshot(files: Vec<Listed>) -> (r: Saving)
    ensures
        r.wf(),
        r@ == first_saving(listed_views(files@)),
{
    Saving { files, next: 0, stage: SaveStage::Manifest }
}

// ---------------------------------------------------------------------------
// Sources
// ---------------------------------------------------------------------------

/// Where the pristine files of the currently-installed version come from.
pub trait BaseSource {
    spec fn wf(&self) -> bool;

    /// What the source lists.
    spec fn listing(&self) -> TextMap<u64>;

    /// What the source knows of a file's checksum.
    spec fn known_crc(&self, rel: Seq<char>) -> Option<u32>;

    /// Every path the old pack shipped, relative to `.minecraft`.
    fn paths(&self) -> (r: &TextMap<u64>)
        requires
            self.wf(),
        ensures
            *r == self.listing(),
            r.wf(),
    ;

    /// CRC32 of the pristine file, when it is known without fetching anything.
    ///
    /// This answers "did anyone actually change this?" for files whose contents
    /// are not worth keeping or downloading (textures, quest icons, sounds),
    /// which is most of a GTNH pack by volume.
    fn digest(&self, rel: &str) -> (r: Option<u32>)
        requires
            self.wf(),
        ensures
            r == self.known_crc(rel@),
    ;
}

/// No pristine copy available; every difference becomes a manual choice.
pub struct NoBase {
    empty: TextMap<u64>,
}

impl Default for NoBase {
    fn default() -> (r: Self)
        ensures
            r.wf(),
            r.listing().keys().len() == 0,
    {
        NoBase { empty: TextMap::new() }
    }
}

impl BaseSource for NoBase {
    closed spec fn wf(&self) -> bool {
        self.empty.wf() && self.empty.keys().len() == 0
    }

    closed spec fn listing(&self) -> TextMap<u64> {
        self.empty
    }

    open spec fn known_crc(&self, rel: Seq<char>) -> Option<u32> {
        None
    }

    fn paths(&self) -> &TextMap<u64> {
        &self.empty
    }

    fn digest(&self, rel: &str) -> Option<u32> {
        None
    }
}

/// What a pristine snapshot that a previous update wrote says of the old pack.
pub struct SnapshotBase {
    pub paths: TextMap<u64>,
    pub digests: TextMap<u32>,
}

impl SnapshotBase {
    /// Read the manifest of a snapshot; without one nothing is known.
    pub fn open(manifest: Option<&str>) -> (r: Self)
        ensures
            r.wf(),
            r.paths.holds(
                match manifest {
                    Some(text) => sizes_in(manifest_of(text@)),
                    None => Seq::empty(),
                },
            ),
            r.digests.holds(
                match manifest {
                    Some(text) => digests_in(manifest_of(text@)),
                    None => Seq::empty(),
                },
            ),
    {
        let mut paths: TextMap<u64> = TextMap::new();
        let mut digests: TextMap<u32> = TextMap::new();
        if let Some(text) = manifest {
            let rows = bare_lines(text);
            let ghost all = texts(rows@);
            let ghost f = |line: Seq<char>| manifest_line(line);
            let ghost g = |l: ManifestLine| crc_entry(l);
            let mut i: usize = 0;
            proof {
                assert(all.take(0) =~= Seq::empty());
                assert(sizes_in(Seq::empty()) =~= Seq::empty());
                assert(digests_in(Seq::empty()) =~= Seq::empty());
            }
            while i < rows.len()
                invariant
                    all == texts(rows@),
                    f == (|line: Seq<char>| manifest_line(line)),
                    g == (|l: ManifestLine| crc_entry(l)),
                    i <= rows.len(),
                    paths.wf(),
                    digests.wf(),
                    paths.holds(sizes_in(collected(all.take(i as int), f))),
                    digests.holds(digests_in(collected(all.take(i as int), f))),
                decreases rows.len() - i,
            {
                let ghost so_far = collected(all.take(i as int), f);
                proof {
                    assert(all.take(i + 1).drop_last() =~= all.take(i as int));
                    assert(all.take(i + 1).last() == rows@[i as int]@);
                    assert(f(all[i as int]) == manifest_line(all[i as int]));
                }
                // rel \t size \t crc32
                if let Some((front, crc)) = cut_last(rows[i].as_str(), '\t') {
                    if let Some((rel, size)) = cut_last(front.as_str(), '\t') {
                        let size: u64 = match u64_in(size.as_str()) {
                            Some(n) => n,
                            None => 0,
                        };
                        let known = u32_in(crc.as_str());
                        let ghost line = ManifestLine { rel: rel@, size, crc: known };
                        let ghost prev = paths;
                        let ghost prev_digests = digests;
                        if let Some(crc) = known {
                            digests.insert(rel.clone(), crc);
                        }
                        let ghost relv = rel@;
                        paths.insert(rel, size);
                        proof {
                            assert(manifest_line(all[i as int]) == Some(line));
                            assert(collected(all.take(i + 1), f) == so_far.push(line));
                            crate::textmap::lemma_holds(prev, paths, sizes_in(so_far), relv, size);
                            assert(sizes_in(so_far.push(line)) =~= sizes_in(so_far).push(
                                (relv, size),
                            ));
                            assert(so_far.push(line).drop_last() =~= so_far);
                            assert(digests_in(so_far) == collected(so_far, g));
                            if let Some(crc) = known {
                                crate::textmap::lemma_holds(
                                    prev_digests,
                                    digests,
                                    digests_in(so_far),
                                    relv,
                                    crc,
                                );
                                assert(digests_in(so_far.push(line)) =~= digests_in(so_far).push(
                                    (relv, crc),
                                ));
                            } else {
                                assert(digests_in(so_far.push(line)) =~= digests_in(so_far));
                            }
                        }
                    }
                }
                i += 1;
            }
            assert(all.take(i as int) =~= all);
        }
        SnapshotBase { paths, digests }
    }

    /// The entry of the snapshot that holds a file.
    pub fn entry(&self, rel: &str) -> (r: String)
        ensures
            r@ == "files/"@ + rel@,
    {
        let mut out = FILES_PREFIX.to_owned();
        out.append(rel);
        out
    }
}

impl BaseSource for SnapshotBase {
    open spec fn wf(&self) -> bool {
        self.paths.wf() && self.digests.wf()
    }

    open spec fn listing(&self) -> TextMap<u64> {
        self.paths
    }

    open spec fn known_crc(&self, rel: Seq<char>) -> Option<u32> {
        self.digests.lookup(rel)
    }

    fn paths(&self) -> &TextMap<u64> {
        &self.paths
    }

    fn digest(&self, rel: &str) -> Option<u32> {
        match self.digests.get(rel) {
            Some(crc) => Some(*crc),
            None => None,
        }
    }
}

/// The old build's artifact, read over HTTP ranges so only the handful of files
/// that actually differ get downloaded.
pub struct RemoteBase {
    pub pack: Pack,
    pub paths: TextMap<u64>,
}

/// A file of the pack below `.minecraft`.
pub open spec fn below_minecraft(path: Seq<char>) -> Option<(Seq<char>, u64)> {
    match strip_prefix(path, ".minecraft/"@) {
        Some(rel) => Some((rel, 0u64)),
        None => None,
    }
}

/// What the old build's pack shipped.
pub open spec fn shipped_by(paths: Seq<Seq<char>>) -> Seq<(Seq<char>, u64)> {
    collected(paths, |p: Seq<char>| below_minecraft(p))
}

impl RemoteBase {
    pub fn new(pack: Pack) -> (r: Self)
        requires
            pack.wf(),
        ensures
            r.wf(),
            r.pack == pack,
            r.paths.holds(shipped_by(pack.index.keys())),
    {
        let mut paths: TextMap<u64> = TextMap::new();
        let ghost all = pack.index.keys();
        let ghost f = |p: Seq<char>| below_minecraft(p);
        let mut i: usize = 0;
        assert(all.take(0) =~= Seq::empty());
        while i < pack.index.entries.len()
            invariant
                all == pack.index.keys(),
                f == (|p: Seq<char>| below_minecraft(p)),
                i <= pack.index.entries.len(),
                paths.wf(),
                paths.holds(collected(all.take(i as int), f)),
            decreases pack.index.entries.len() - i,
        {
            let ghost so_far = collected(all.take(i as int), f);
            proof {
                assert(all.take(i + 1).drop_last() =~= all.take(i as int));
                assert(all.take(i + 1).last() == pack.index.entries@[i as int].0@);
            }
            if let Some(rel) = without_prefix(pack.index.entries[i].0.as_str(), ".minecraft/") {
                let ghost prev = paths;
                let ghost relv = rel@;
                paths.insert(rel, 0);
                proof {
                    crate::textmap::lemma_holds(prev, paths, so_far, relv, 0u64);
                    assert(f(all[i as int]) == Some((relv, 0u64)));
                }
            }
            i += 1;
        }
        assert(all.take(i as int) =~= all);
        RemoteBase { pack, paths }
    }

    /// The file of the pack that holds the original.
    pub fn entry(&self, rel: &str) -> (r: String)
        ensures
            r@ == ".minecraft/"@ + rel@,
    {
        let mut out = ".minecraft/".to_owned();
        out.append(rel);
        out
    }
}

impl BaseSource for RemoteBase {
    open spec fn wf(&self) -> bool {
        self.pack.wf() && self.paths.wf()
    }

    open spec fn listing(&self) -> TextMap<u64> {
        self.paths
    }

    open spec fn known_crc(&self, rel: Seq<char>) -> Option<u32> {
        None
    }

    fn paths(&self) -> &TextMap<u64> {
        &self.paths
    }

    fn digest(&self, rel: &str) -> Option<u32> {
        None
    }
}

// ---------------------------------------------------------------------------
// Laws
// ---------------------------------------------------------------------------

proof fn lemma_decimal_has_no(n: nat, c: char)
    requires
        !crate::text::is_digit(c),
    ensures
        !decimal(n).contains(c),
        decimal(n).len() > 0,
{
    crate::text::lemma_decimal_reads_back(n);
    if decimal(n).contains(c) {
        assert(crate::text::is_digit(decimal(n)[decimal(n).index_of(c)]));
    }
}

proof fn lemma_line_reads_back(rel: Seq<char>, size: u64, crc: u32)
    requires
        !rel.contains('\n'),
    ensures
        manifest_line(written_line(rel, size, crc)) == Some(
            ManifestLine { rel, size, crc: Some(crc) },
        ),
        !written_line(rel, size, crc).contains('\n'),
        written_line(rel, size, crc).len() > 0,
        written_line(rel, size, crc).last() != '\r',
{
    let front = rel.push('\t') + decimal(size as nat);
    let line = written_line(rel, size, crc);
    lemma_decimal_has_no(size as nat, '\t');
    lemma_decimal_has_no(crc as nat, '\t');
    lemma_decimal_has_no(size as nat, '\n');
    lemma_decimal_has_no(crc as nat, '\n');
    lemma_decimal_has_no(crc as nat, '\r');
    crate::text::lemma_rsplit(front, '\t', decimal(crc as nat));
    crate::text::lemma_rsplit(rel, '\t', decimal(size as nat));
    crate::text::lemma_parse_decimal(size as nat, u64::MAX as nat);
    crate::text::lemma_parse_decimal(crc as nat, u32::MAX as nat);
    let d = decimal(crc as nat);
    assert(line.last() == d[d.len() - 1]);
    assert(d.contains(d[d.len() - 1]));
    if line.contains('\n') {
        let i = line.index_of('\n');
        if i < rel.len() {
            assert(rel[i] == '\n');
        } else if rel.len() < i < front.len() {
            assert(decimal(size as nat)[i - rel.len() - 1] == '\n');
        } else if i > front.len() {
            assert(d[i - front.len() - 1] == '\n');
        }
    }
}

pub open spec fn listed_line(f: Listed) -> ManifestLine {
    ManifestLine { rel: f.rel@, size: f.size, crc: Some(f.crc) }
}

proof fn lemma_all_collected<A, B>(s: Seq<A>, f: spec_fn(A) -> Option<B>, out: Seq<B>)
    requires
        s.len() == out.len(),
        forall|i: int| 0 <= i < s.len() ==> f(#[trigger] s[i]) == Some(out[i]),
    ensures
        collected(s, f) == out,
    decreases s.len(),
{
    if s.len() > 0 {
        let init = s.drop_last();
        assert forall|i: int| 0 <= i < init.len() implies f(#[trigger] init[i]) == Some(
            out.drop_last()[i],
        ) by {
            assert(init[i] == s[i]);
        }
        lemma_all_collected(init, f, out.drop_last());
        assert(f(s[s.len() - 1]) == Some(out[s.len() - 1]));
        assert(out =~= out.drop_last().push(out.last()));
    } else {
        assert(collected(s, f) =~= out);
    }
}

/// A manifest reads back as it was written: every file with its size and its
/// checksum, jars and textures too. A path with a line feed in it is left out,
/// since the manifest has one line for each file.
pub proof fn law_a_manifest_reads_back(files: Seq<Listed>)
    requires
        forall|i: int| 0 <= i < files.len() ==> !(#[trigger] files[i]).rel@.contains('\n'),
    ensures
        manifest_of(manifest_text(files)) == files.map_values(|f: Listed| listed_line(f)),
        sizes_in(manifest_of(manifest_text(files))) == files.map_values(
            |f: Listed| (f.rel@, f.size),
        ),
        digests_in(manifest_of(manifest_text(files))) == files.map_values(
            |f: Listed| (f.rel@, f.crc),
        ),
{
    let rows = written_lines(files);
    assert forall|i: int| 0 <= i < rows.len() implies !(#[trigger] rows[i]).contains('\n') && !(
    rows[i].len() > 0 && rows[i].last() == '\r') by {
        lemma_line_reads_back(files[i].rel@, files[i].size, files[i].crc);
    }
    crate::text::lemma_written_lines(rows);
    let f = |line: Seq<char>| manifest_line(line);
    let out = files.map_values(|f: Listed| listed_line(f));
    assert forall|i: int| 0 <= i < rows.len() implies f(#[trigger] rows[i]) == Some(out[i]) by {
        lemma_line_reads_back(files[i].rel@, files[i].size, files[i].crc);
    }
    lemma_all_collected(rows, f, out);
    assert(manifest_of(manifest_text(files)) == out);
    assert(sizes_in(out) =~= files.map_values(|f: Listed| (f.rel@, f.size)));
    let g = |l: ManifestLine| crc_entry(l);
    let crcs = files.map_values(|f: Listed| (f.rel@, f.crc));
    assert forall|i: int| 0 <= i < out.len() implies g(#[trigger] out[i]) == Some(crcs[i]) by {}
    lemma_all_collected(out, g, crcs);
}

// ---------------------------------------------------------------------------
// Laws of saving
// ---------------------------------------------------------------------------

/// What there is to read: the bytes of each file that can be read.
pub struct Disk {
    pub bytes: spec_fn(Seq<char>) -> Option<Seq<u8>>,
}

/// What a snapshot stores of a file: its bytes, where it may be kept, can be read
/// and is text.
pub open spec fn stored_of(disk: Disk, f: ListedView) -> Option<(Seq<char>, Seq<u8>)> {
    if may_keep(f) {
        match (disk.bytes)(f.rel) {
            Some(bytes) => if mergeable(bytes) {
                Some(("files/"@ + f.rel, bytes))
            } else {
                None
            },
            None => None,
        }
    } else {
        None
    }
}

pub open spec fn all_stored(disk: Disk, files: Seq<ListedView>) -> Seq<(Seq<char>, Seq<u8>)> {
    collected(files, |f: ListedView| stored_of(disk, f))
}

impl Disk {
    /// What saving is told where everything can be written and nobody refuses.
    pub open spec fn answer(self, s: SavingView) -> SaveEventView {
        match s.stage {
            SaveStageView::Manifest => SaveEventView::Written,
            SaveStageView::Read => SaveEventView::Read((self.bytes)(s.files[s.next].rel)),
            SaveStageView::Store(_) => SaveEventView::Written,
            SaveStageView::Seal => SaveEventView::Written,
            _ => SaveEventView::Reported(true),
        }
    }

    /// Saving after `n` answers.
    pub open spec fn run(self, s: SavingView, n: nat) -> SavingView
        decreases n,
    {
        if n == 0 {
            s
        } else {
            let so_far = self.run(s, (n - 1) as nat);
            so_far.told(self.answer(so_far))
        }
    }

    /// What has been stored after `n` answers: entries and their bytes, in order.
    pub open spec fn stored(self, s: SavingView, n: nat) -> Seq<(Seq<char>, Seq<u8>)>
        decreases n,
    {
        if n == 0 {
            Seq::empty()
        } else {
            let so_far = self.run(s, (n - 1) as nat);
            let before_it = self.stored(s, (n - 1) as nat);
            match so_far.stage {
                SaveStageView::Store(bytes) => before_it.push(
                    ("files/"@ + so_far.files[so_far.next].rel, bytes),
                ),
                _ => before_it,
            }
        }
    }
}

spec fn saves_well(disk: Disk, s: SavingView) -> bool {
    match s.stage {
        SaveStageView::Manifest => s.next == 0,
        SaveStageView::Report => 0 <= s.next < s.files.len(),
        SaveStageView::Read => 0 <= s.next < s.files.len() && may_keep(s.files[s.next]),
        SaveStageView::Store(bytes) => 0 <= s.next < s.files.len() && stored_of(
            disk,
            s.files[s.next],
        ) == Some(("files/"@ + s.files[s.next].rel, bytes)),
        SaveStageView::Cancelled => false,
        _ => s.next == s.files.len(),
    }
}

spec fn left_to_save(s: SavingView) -> int {
    3 * (s.files.len() - s.next) + match s.stage {
        SaveStageView::Manifest => 3int,
        SaveStageView::Report => 2int,
        SaveStageView::Read => 1int,
        SaveStageView::Store(_) => 0int,
        SaveStageView::Seal => 2int,
        SaveStageView::Close => 1int,
        _ => 0int,
    }
}

proof fn lemma_save_stop(disk: Disk, files: Seq<ListedView>, n: int)
    requires
        0 <= n <= files.len(),
    ensures
        ({
            let (next, stage) = save_stop(files, n);
            &&& n <= next <= files.len()
            &&& saves_well(disk, SavingView { files, next, stage })
            &&& stage is Report || stage is Read || stage is Seal
            &&& all_stored(disk, files.take(next)) == all_stored(disk, files.take(n))
        }),
    decreases files.len() - n,
{
    if n < files.len() && n % (SNAPSHOT_REPORT_EVERY as int) != 0 && !may_keep(files[n]) {
        lemma_save_stop(disk, files, n + 1);
        assert(files.take(n + 1).drop_last() =~= files.take(n));
    }
}

proof fn lemma_saved(disk: Disk, s: SavingView, n: nat)
    requires
        saves_well(disk, s),
        s.stage is Manifest,
    ensures
        ({
            let now = disk.run(s, n);
            &&& saves_well(disk, now)
            &&& now.files == s.files
            &&& disk.stored(s, n) == all_stored(disk, s.files.take(now.next))
            &&& now.stage is Done || left_to_save(now) <= left_to_save(s) - n
        }),
    decreases n,
{
    if n > 0 {
        lemma_saved(disk, s, (n - 1) as nat);
        let so_far = disk.run(s, (n - 1) as nat);
        let files = s.files;
        if so_far.stage is Manifest {
            lemma_save_stop(disk, files, 0);
        } else if so_far.next < files.len() {
            lemma_save_stop(disk, files, so_far.next + 1);
            let now = files.take(so_far.next + 1);
            assert(now.drop_last() =~= files.take(so_far.next));
            assert(now.last() == files[so_far.next]);
        }
    } else {
        assert(s.files.take(0) =~= Seq::empty());
    }
}

/// Where everything can be written and nobody refuses, a snapshot ends up with every
/// file that is text and no jar, not too large and readable, under its own entry,
/// and with nothing else.
pub proof fn law_a_snapshot_holds_the_text_files(disk: Disk, files: Seq<ListedView>)
    ensures
        ({
            let start = first_saving(files);
            let n = 3 * files.len() + 3;
            &&& disk.run(start, n).stage is Done
            &&& disk.stored(start, n) == all_stored(disk, files)
        }),
{
    let start = first_saving(files);
    lemma_saved(disk, start, 3 * files.len() + 3);
    assert(files.take(files.len() as int) =~= files);
}

proof fn lemma_save_stage(files: Seq<ListedView>, n: int)
    ensures
        !(save_stop(files, n).1 is Cancelled),
    decreases files.len() - n,
{
    if n < files.len() && n % (SNAPSHOT_REPORT_EVERY as int) != 0 && !may_keep(files[n]) {
        lemma_save_stage(files, n + 1);
    }
}

/// A refusal at a report ends saving for good; at the last one, when the archive is
/// in its place, the answer changes nothing.
pub proof fn law_only_a_refusal_cancels_saving(s: SavingView, e: SaveEventView)
    ensures
        s.told(e).stage is Cancelled <==> s.stage is Cancelled || (s.stage is Report && e
            == SaveEventView::Reported(false)),
        s.stage is Cancelled ==> s.told(e) == s,
        s.stage is Close && e is Reported ==> s.told(e) == s.at(SaveStageView::Done),
{
    lemma_save_stage(s.files, 0);
    lemma_save_stage(s.files, s.next + 1);
}

/// What a snapshot ends up with: every file that is no jar, has at most thirty-two
/// mebibytes, can be read and is text, below `files/` and byte for byte; and nothing
/// else.
pub proof fn law_what_a_snapshot_stores(
    disk: Disk,
    files: Seq<ListedView>,
    f: ListedView,
    bytes: Seq<u8>,
)
    requires
        files.contains(f),
    ensures
        ({
            let n = 3 * files.len() + 3;
            let stored = disk.stored(first_saving(files), n);
            let text = exists|s: Seq<char>| #[trigger] crate::plan::encodes(bytes, s);
            let kept = !crate::plan::jar_path(f.rel) && f.size <= 33_554_432 && (disk.bytes)(f.rel)
                == Some(bytes) && text;
            &&& kept ==> stored.contains(("files/"@ + f.rel, bytes))
            &&& forall|e: (Seq<char>, Seq<u8>)| #[trigger]
                stored.contains(e) ==> exists|g: ListedView| #[trigger]
                    files.contains(g) && e.0 == "files/"@ + g.rel && (disk.bytes)(g.rel) == Some(e.1)
                        && !crate::plan::jar_path(g.rel) && g.size <= 33_554_432 && exists|
                        s: Seq<char>,
                    | #[trigger] crate::plan::encodes(e.1, s)
        }),
{
    let n = 3 * files.len() + 3;
    let stored = disk.stored(first_saving(files), n);
    law_a_snapshot_holds_the_text_files(disk, files);
    let h = |f: ListedView| stored_of(disk, f);
    crate::mods::lemma_collected(files, h);
    assert(stored == collected(files, h));
    crate::util::law_text_is_any_encoding_without_nul(bytes);
    crate::plan::law_jars_are_for_the_mod_plan(Seq::empty(), (f.rel, 0u64));
    if exists|s: Seq<char>| #[trigger] crate::plan::encodes(bytes, s) {
        let s = choose|s: Seq<char>| #[trigger] crate::plan::encodes(bytes, s);
        assert(!s.contains('\0') && bytes == vstd::utf8::encode_utf8(s));
        assert(mergeable(bytes));
    }
    if !crate::plan::jar_path(f.rel) && f.size <= 33_554_432 && (disk.bytes)(f.rel) == Some(bytes)
        && exists|s: Seq<char>| #[trigger] crate::plan::encodes(bytes, s) {
        assert(h(f) == Some(("files/"@ + f.rel, bytes)));
    }
    assert forall|e: (Seq<char>, Seq<u8>)| #[trigger] stored.contains(e) implies exists|
        g: ListedView,
    | #[trigger]
        files.contains(g) && e.0 == "files/"@ + g.rel && (disk.bytes)(g.rel) == Some(e.1)
            && !crate::plan::jar_path(g.rel) && g.size <= 33_554_432 && exists|s: Seq<char>|
            #[trigger] crate::plan::encodes(e.1, s) by {
        let g = choose|g: ListedView| files.contains(g) && #[trigger] h(g) == Some(e);
        assert(stored_of(disk, g) == Some(e));
        crate::plan::law_jars_are_for_the_mod_plan(Seq::empty(), (g.rel, 0u64));
        crate::util::law_text_is_any_encoding_without_nul(e.1);
        let s = choose|s: Seq<char>|
            !s.contains('\0') && e.1 == #[trigger] vstd::utf8::encode_utf8(s);
        assert(crate::plan::encodes(e.1, s));
        assert(files.contains(g));
    }
}

/// A manifest is one line for each file: the path, the size and the checksum, with a
/// tab between them and a line feed behind.
pub proof fn law_what_a_manifest_says(files: Seq<ListedView>, f: ListedView)
    ensures
        manifest_for(Seq::empty()).len() == 0,
        manifest_for(files.push(f)) == manifest_for(files) + (f.rel + "\t"@ + decimal(
            f.size as nat,
        ) + "\t"@ + decimal(f.crc as nat) + "\n"@),
{
    reveal_strlit("\t");
    reveal_strlit("\n");
    let g = |f: ListedView| written_line(f.rel, f.size, f.crc).push('\n');
    let none: Seq<ListedView> = Seq::empty();
    assert(none.map_values(g) =~= Seq::empty());
    let all = files.push(f).map_values(g);
    assert(all.drop_last() =~= files.map_values(g));
    assert(all.last() == g(f));
    assert(written_line(f.rel, f.size, f.crc).push('\n') =~= f.rel + "\t"@ + decimal(f.size as nat)
        + "\t"@ + decimal(f.crc as nat) + "\n"@);
}

/// A line is cut at its last two tabs, so that a path may hold some itself. A size
/// that is no number counts as nothing, and a checksum that is none is not known.
pub proof fn law_how_a_manifest_line_is_read(
    rel: Seq<char>,
    size: Seq<char>,
    crc: Seq<char>,
)
    requires
        !size.contains('\t'),
        !crc.contains('\t'),
    ensures
        ({
            let line = manifest_line(rel + seq!['\t'] + size + seq!['\t'] + crc);
            &&& line is Some
            &&& line->0.rel == rel
            &&& match parse_nat(size, u64::MAX as nat) {
                Some(n) => line->0.size == n,
                None => line->0.size == 0,
            }
            &&& match parse_nat(crc, u32::MAX as nat) {
                Some(n) => line->0.crc == Some(n as u32),
                None => line->0.crc is None,
            }
        }),
        manifest_line(crc) is None,
        manifest_line(size + seq!['\t'] + crc) is None,
{
    crate::text::law_cutting_at_the_first(rel + seq!['\t'] + size, '\t', crc);
    crate::text::law_cutting_at_the_first(rel, '\t', size);
    crate::text::law_cutting_at_the_first(size, '\t', crc);
    crate::text::law_cutting_at_the_first(size, '\t', size);
}

/// What a build shipped is what its pack has below `.minecraft/`.
pub proof fn law_what_a_build_shipped(paths: Seq<Seq<char>>, rel: Seq<char>)
    ensures
        shipped_by(paths).contains((rel, 0u64)) <==> paths.contains(".minecraft/"@ + rel),
{
    let f = |p: Seq<char>| below_minecraft(p);
    crate::mods::lemma_collected(paths, f);
    assert(shipped_by(paths) == collected(paths, f));
    crate::text::law_stripping(rel, ".minecraft/"@);
    if paths.contains(".minecraft/"@ + rel) {
        assert(f(".minecraft/"@ + rel) == Some((rel, 0u64)));
    }
    if shipped_by(paths).contains((rel, 0u64)) {
        let p = choose|p: Seq<char>| paths.contains(p) && #[trigger] f(p) == Some((rel, 0u64));
        assert(below_minecraft(p) == Some((rel, 0u64)));
        crate::text::law_stripping(p, ".minecraft/"@);
        assert(p == ".minecraft/"@ + rel);
    }
}

/// Saving reports when it comes to every two hundred and fifty-sixth file, and passes
/// over what it may not keep.
pub proof fn law_saving_reports_at_even_distances(files: Seq<ListedView>, n: int)
    requires
        0 <= n < files.len(),
    ensures
        n % 256 == 0 ==> save_stop(files, n) == (n, SaveStageView::Report),
        n % 256 != 0 && !crate::plan::jar_path(files[n].rel) && files[n].size <= 33_554_432
            ==> save_stop(files, n) == (n, SaveStageView::Read),
        n % 256 != 0 && (crate::plan::jar_path(files[n].rel) || files[n].size > 33_554_432)
            ==> save_stop(files, n) == save_stop(files, n + 1),
{
    crate::plan::law_jars_are_for_the_mod_plan(Seq::empty(), (files[n].rel, 0u64));
}

/// A snapshot keeps what is no jar and has at most thirty-two mebibytes.
pub proof fn law_what_may_be_kept(rel: &str, size: u64, r: bool)
    requires
        call_ensures(in_snapshot, (rel, size), r),
    ensures
        r <==> !crate::plan::jar_path(rel@) && size <= 33_554_432,
{
    crate::plan::law_jars_are_for_the_mod_plan(Seq::empty(), (rel@, 0u64));
}

/// Where the original of a file is found in a snapshot and in a pack.
pub proof fn law_where_originals_are_found(
    s: SnapshotBase,
    p: RemoteBase,
    rel: &str,
    a: String,
    b: String,
)
    requires
        call_ensures(SnapshotBase::entry, (&s, rel), a),
        call_ensures(RemoteBase::entry, (&p, rel), b),
    ensures
        a@ == "files/"@ + rel@,
        b@ == ".minecraft/"@ + rel@,
{
}

/// What saving asks for: the manifest, then the bytes of the file it has come to and
/// their place below `files/`, and reports that count to the number of files.
pub proof fn law_what_saving_asks_for(s: Saving, r: SaveAction<'_>)
    requires
        call_ensures(Saving::action, (&s,), r),
    ensures
        r matches SaveAction::Manifest(text) ==> text@ == manifest_for(s@.files),
        r matches SaveAction::Read(rel) ==> rel@ == s@.files[s@.next].rel,
        r matches SaveAction::Store { entry, bytes } ==> entry@ == "files/"@ + s@.files[s@.next].rel
            && s@.stage == SaveStageView::Store(bytes@),
        r matches SaveAction::Report { done, total } ==> total == s@.files.len() && (done == total
            || done == s@.next),
        s@.stage is Close ==> (r matches SaveAction::Report { done, total } && done == total),
        r is Manifest <==> s@.stage is Manifest,
        r is Read <==> s@.stage is Read,
        r is Store <==> s@.stage is Store,
        r is Seal <==> s@.stage is Seal,
        r is Finish <==> s@.stage is Done,
        r is Cancelled <==> s@.stage is Cancelled,
{
}

} // verus!
