//! Reading a GTNH daily pack zip, locally or over HTTP ranges.
//!
//! Every artifact wraps the instance in a single top-level folder
//! (`GT New Horizons daily/`), so paths are re-rooted to the instance layout:
//! `.minecraft/config/…`, `instance.cfg`, `patches/…`, `mmc-pack.json`.
use vstd::prelude::*;
use vstd::string::*;

use crate::merge::optional_text;
use crate::mods::collected;
use crate::text::{
    chars_of, cut_once, pieces, same, split, split_once, strip_prefix, texts, without_prefix,
};
use crate::textmap::TextMap;
use crate::util::{forward_slashes, join_path, norm_path, path_in, without_dots};

verus! {

/// How often extraction tells how far it has come.
pub const EXTRACT_REPORT_EVERY: usize = 64;

/// What can be wrong with a pack.
#[derive(Debug, Clone, Copy, PartialEq, Eq, Structural)]
pub enum PackError {
    /// The zip holds no files.
    NoFiles,
    /// There is no such file in the pack.
    Missing,
    /// An entry tried to escape the target directory.
    Escapes,
}

impl PackError {
    /// What to tell the user; `rel` is the file it is about.
    pub fn message(self, rel: &str) -> (r: String)
        ensures
            r@ == (match self {
                PackError::NoFiles => "pack zip contained no files"@,
                PackError::Missing => rel@ + " is not in the pack"@,
                PackError::Escapes => "pack entry "@ + rel@
                    + " tried to escape the target directory"@,
            }),
    {
        match self {
            PackError::NoFiles => "pack zip contained no files".to_owned(),
            PackError::Missing => {
                let mut out = rel.to_owned();
                out.append(" is not in the pack");
                out
            },
            PackError::Escapes => {
                let mut out = "pack entry ".to_owned();
                out.append(rel);
                out.append(" tried to escape the target directory");
                out
            },
        }
    }
}

/// The files of a pack zip.
pub struct Pack {
    /// Zip index for each re-rooted path. Directories are excluded.
    pub index: TextMap<usize>,
}

// ---------------------------------------------------------------------------
// The folder around the pack
// ---------------------------------------------------------------------------

/// The top-level folder a path lies in.
pub open spec fn folder_of(name: Seq<char>) -> Option<Seq<char>> {
    match split_once(name, '/') {
        Some((first, _)) => Some(first),
        None => None,
    }
}

/// Every path lies in this one folder.
pub open spec fn all_under(names: Seq<Seq<char>>, folder: Seq<char>) -> bool {
    forall|i: int| 0 <= i < names.len() ==> folder_of(#[trigger] names[i]) == Some(folder)
}

/// If every entry sits under one top-level folder, that folder with a trailing
/// slash.
pub open spec fn root_of(names: Seq<Seq<char>>) -> Option<Seq<char>> {
    if names.len() > 0 && folder_of(names[0]) is Some && all_under(names, folder_of(names[0])->0) {
        Some((folder_of(names[0])->0).push('/'))
    } else {
        None
    }
}

/// If every entry sits under one top-level folder, return it (with trailing slash).
pub fn detect_root(names: &Vec<String>) -> (r: Option<String>)
    ensures
        r is Some <==> root_of(texts(names@)) is Some,
        r matches Some(root) ==> root_of(texts(names@)) == Some(root@),
{
    let ghost all = texts(names@);
    if names.len() == 0 {
        return None;
    }
    assert(all[0] == names@[0]@);
    let mut root = match cut_once(names[0].as_str(), '/') {
        Some((first, _)) => first,
        // A file at the top level means the pack is not wrapped.
        None => return None,
    };
    let mut i: usize = 1;
    while i < names.len()
        invariant
            all == texts(names@),
            1 <= i <= names.len(),
            folder_of(all[0]) == Some(root@),
            forall|j: int| 0 <= j < i ==> folder_of(#[trigger] all[j]) == Some(root@),
        decreases names.len() - i,
    {
        assert(all[i as int] == names@[i as int]@);
        match cut_once(names[i].as_str(), '/') {
            Some((first, _)) => {
                if !same(first.as_str(), root.as_str()) {
                    assert(folder_of(all[i as int]) != Some(root@));
                    return None;
                }
            },
            None => {
                assert(folder_of(all[i as int]) != Some(root@));
                return None;
            },
        }
        i += 1;
    }
    root.push('/');
    Some(root)
}

// ---------------------------------------------------------------------------
// The index
// ---------------------------------------------------------------------------

/// The entries that have a name, each with its place in the zip.
pub open spec fn named_entries(names: Seq<Option<String>>) -> Seq<(Seq<char>, usize)>
    decreases names.len(),
{
    if names.len() == 0 {
        Seq::empty()
    } else {
        match names.last() {
            Some(n) => named_entries(names.drop_last()).push(
                (without_dots(forward_slashes(n@)), (names.len() - 1) as usize),
            ),
            None => named_entries(names.drop_last()),
        }
    }
}

/// A file of the pack under its re-rooted path; folders give nothing.
pub open spec fn rerooted(e: (Seq<char>, usize), root: Option<Seq<char>>) -> Option<
    (Seq<char>, usize),
> {
    let rel = match root {
        Some(prefix) => strip_prefix(e.0, prefix),
        None => Some(e.0),
    };
    match rel {
        Some(r) => if e.0.len() > 0 && e.0.last() == '/' || r.len() == 0 {
            None
        } else {
            Some((r, e.1))
        },
        None => None,
    }
}

/// The files of a pack with these entries.
pub open spec fn pack_files(names: Seq<Option<String>>) -> Seq<(Seq<char>, usize)> {
    let named = named_entries(names);
    let root = root_of(crate::textmap::entry_keys(named));
    collected(named, |e: (Seq<char>, usize)| rerooted(e, root))
}

pub open spec fn place_views(s: Seq<String>, at: Seq<usize>) -> Seq<(Seq<char>, usize)>
    recommends
        s.len() == at.len(),
{
    Seq::new(s.len(), |i: int| (s[i]@, at[i]))
}

/// The normalised names, and where each stands.
fn name_entries(names: &Vec<Option<String>>) -> (r: (Vec<String>, Vec<usize>))
    ensures
        r.0.len() == r.1.len(),
        place_views(r.0@, r.1@) == named_entries(names@),
{
    let mut out: Vec<String> = Vec::new();
    let mut at: Vec<usize> = Vec::new();
    let mut i: usize = 0;
    proof {
        assert(names@.take(0) =~= Seq::empty());
        assert(place_views(out@, at@) =~= Seq::empty());
    }
    while i < names.len()
        invariant
            i <= names.len(),
            out.len() == at.len(),
            place_views(out@, at@) == named_entries(names@.take(i as int)),
        decreases names.len() - i,
    {
        let ghost so_far = place_views(out@, at@);
        proof {
            assert(names@.take(i + 1).drop_last() =~= names@.take(i as int));
            assert(names@.take(i + 1).last() == names@[i as int]);
        }
        if let Some(name) = &names[i] {
            let norm = norm_path(name.as_str());
            let ghost nv = norm@;
            out.push(norm);
            at.push(i);
            assert(place_views(out@, at@) =~= so_far.push((nv, i)));
        }
        i += 1;
    }
    assert(names@.take(i as int) =~= names@);
    (out, at)
}

impl Pack {
    pub open spec fn wf(self) -> bool {
        self.index.wf()
    }

    /// The files of a zip whose entries have these names.
    pub fn open(names: &Vec<Option<String>>) -> (r: Result<Pack, PackError>)
        ensures
            r is Ok <==> pack_files(names@).len() > 0,
            r matches Ok(pack) ==> pack.wf() && pack.index.holds(pack_files(names@)),
            r matches Err(e) ==> e == PackError::NoFiles,
    {
        let (list, at) = name_entries(names);
        let ghost named = named_entries(names@);
        let root = detect_root(&list);
        let ghost rv = optional_text(root);
        proof {
            assert(texts(list@) =~= crate::textmap::entry_keys(named));
        }
        let ghost f = |e: (Seq<char>, usize)| rerooted(e, rv);
        let mut index: TextMap<usize> = TextMap::new();
        let mut i: usize = 0;
        let mut found: bool = false;
        proof {
            assert(named.take(0) =~= Seq::empty());
        }
        while i < list.len()
            invariant
                list.len() == at.len(),
                named == place_views(list@, at@),
                rv == optional_text(root),
                f == (|e: (Seq<char>, usize)| rerooted(e, rv)),
                i <= list.len(),
                index.wf(),
                index.holds(collected(named.take(i as int), f)),
                found == (collected(named.take(i as int), f).len() > 0),
            decreases list.len() - i,
        {
            let ghost so_far = collected(named.take(i as int), f);
            proof {
                assert(named.take(i + 1).drop_last() =~= named.take(i as int));
                assert(named.take(i + 1).last() == (list@[i as int]@, at@[i as int]));
            }
            let name = list[i].as_str();
            let rel = match &root {
                Some(prefix) => without_prefix(name, prefix.as_str()),
                None => Some(name.to_owned()),
            };
            let v = chars_of(name);
            if let Some(rel) = rel {
                let is_folder = v.len() > 0 && v[v.len() - 1] == '/';
                if !is_folder && chars_of(rel.as_str()).len() > 0 {
                    let ghost prev = index;
                    let ghost relv = rel@;
                    let place = at[i];
                    index.insert(rel, place);
                    found = true;
                    proof {
                        crate::textmap::lemma_holds(prev, index, so_far, relv, place);
                        assert(f(named[i as int]) == Some((relv, place)));
                    }
                }
            }
            i += 1;
        }
        assert(named.take(i as int) =~= named);
        if found {
            Ok(Pack { index })
        } else {
            Err(PackError::NoFiles)
        }
    }

    /// Re-rooted paths of every file in the pack.
    pub fn paths(&self) -> (r: Vec<String>)
        ensures
            texts(r@) == self.index.keys(),
    {
        let mut out: Vec<String> = Vec::new();
        let mut i: usize = 0;
        while i < self.index.entries.len()
            invariant
                i <= self.index.entries.len(),
                out.len() == i,
                forall|j: int| 0 <= j < i ==> #[trigger] out@[j]@ == self.index.entries@[j].0@,
            decreases self.index.entries.len() - i,
        {
            out.push(self.index.entries[i].0.clone());
            i += 1;
        }
        assert(texts(out@) =~= self.index.keys());
        out
    }

    /// Where a file stands in the zip.
    pub fn read(&self, rel: &str) -> (r: Result<usize, PackError>)
        requires
            self.wf(),
        ensures
            r == (match self.index.lookup(rel@) {
                Some(i) => Ok::<usize, PackError>(i),
                None => Err(PackError::Missing),
            }),
    {
        match self.index.get(rel) {
            Some(i) => Ok(*i),
            None => Err(PackError::Missing),
        }
    }
}

// ---------------------------------------------------------------------------
// Extraction
// ---------------------------------------------------------------------------

/// The parts of a path that go deeper.
pub open spec fn deeper(part: Seq<char>) -> Option<Seq<char>> {
    if part.len() == 0 || part == "."@ {
        None
    } else {
        Some(part)
    }
}

pub open spec fn steps_down(rel: Seq<char>) -> Seq<Seq<char>> {
    collected(split(rel, '/'), |part: Seq<char>| deeper(part))
}

/// Going down from a directory, one part after the other.
pub open spec fn below(base: Seq<char>, parts: Seq<Seq<char>>) -> Seq<char>
    decreases parts.len(),
{
    if parts.len() == 0 {
        base
    } else {
        path_in(below(base, parts.drop_last()), parts.last())
    }
}

pub open spec fn climbs(parts: Seq<Seq<char>>) -> bool {
    parts.contains(".."@)
}

/// Where an entry goes below `base`. One that would escape via `..` is rejected; an
/// absolute path loses its leading slashes and stays below like any other.
pub fn safe_join(base: &str, rel: &str) -> (r: Result<String, PackError>)
    ensures
        r is Err <==> climbs(steps_down(rel@)),
        r matches Ok(path) ==> path@ == below(base@, steps_down(rel@)),
        r matches Err(e) ==> e == PackError::Escapes,
{
    let parts = pieces(rel, '/');
    let ghost all = texts(parts@);
    let ghost f = |part: Seq<char>| deeper(part);
    let mut out = base.to_owned();
    let mut i: usize = 0;
    assert(all.take(0) =~= Seq::empty());
    while i < parts.len()
        invariant
            all == texts(parts@),
            all == split(rel@, '/'),
            f == (|part: Seq<char>| deeper(part)),
            i <= parts.len(),
            out@ == below(base@, collected(all.take(i as int), f)),
            !climbs(collected(all.take(i as int), f)),
        decreases parts.len() - i,
    {
        let ghost so_far = collected(all.take(i as int), f);
        proof {
            assert(all.take(i + 1).drop_last() =~= all.take(i as int));
            assert(all.take(i + 1).last() == parts@[i as int]@);
        }
        let part = parts[i].as_str();
        if !(chars_of(part).len() == 0 || same(part, ".")) {
            proof {
                assert(f(all[i as int]) == Some(part@));
                assert(so_far.push(part@).drop_last() =~= so_far);
                assert(collected(all.take(i + 1), f) == so_far.push(part@));
            }
            if same(part, "..") {
                proof {
                    crate::mods::lemma_collected(all, f);
                    assert(all.contains(all[i as int]) && f(all[i as int]) == Some(".."@));
                    assert(steps_down(rel@) == collected(all, f));
                }
                return Err(PackError::Escapes);
            }
            out = join_path(out.as_str(), part);
            assert(!so_far.push(part@).contains(".."@)) by {
                if so_far.push(part@).contains(".."@) {
                    let k = so_far.push(part@).index_of(".."@);
                    if k < so_far.len() {
                        assert(so_far[k] == ".."@);
                    }
                }
            }
        }
        i += 1;
    }
    assert(all.take(i as int) =~= all);
    Ok(out)
}

// ---------------------------------------------------------------------------
// Going through the files
// ---------------------------------------------------------------------------

/// What extraction waits for.
#[derive(Debug, Clone, Copy, PartialEq, Eq, Structural)]
pub enum ExtractStage {
    /// The file to be extracted.
    Extract,
    /// To tell how far it has come.
    Report,
    /// To tell that everything is extracted.
    Close,
    /// Nothing: that has been told.
    Done,
    /// Nothing: the user does not want to go on.
    Cancelled,
    /// Nothing: the entry would escape.
    Refused,
}

/// What extraction wants.
#[derive(Debug)]
pub enum ExtractAction {
    /// Write the entry of the zip to that path.
    Extract { at: usize, path: String },
    /// Tell the user that `done` of `total` files are extracted, and ask whether to
    /// go on.
    Report { done: usize, total: usize },
    /// Nothing: the pack is extracted.
    Finish,
    /// Nothing: the user has cancelled.
    Cancelled,
    /// Nothing: the entry of that name is refused.
    Refused(String),
}

/// What extraction is told.
#[derive(Debug, Clone, Copy, PartialEq, Eq, Structural)]
pub enum ExtractEvent {
    /// The file is written.
    Extracted,
    /// The report was made, and the user lets it go on or does not.
    Reported(bool),
}

/// A pack that is being extracted, file by file. It says what it wants done, and is
/// told what came of it.
#[derive(Debug)]
pub struct Extraction {
    entries: Vec<(String, usize)>,
    dest: String,
    next: usize,
    stage: ExtractStage,
}

/// A pack that is being extracted, as texts.
pub struct ExtractionView {
    pub entries: Seq<(Seq<char>, usize)>,
    pub dest: Seq<char>,
    pub next: int,
    pub stage: ExtractStage,
}

pub open spec fn entry_views(s: Seq<(String, usize)>) -> Seq<(Seq<char>, usize)> {
    s.map_values(|e: (String, usize)| (e.0@, e.1))
}

impl View for Extraction {
    type V = ExtractionView;

    closed spec fn view(&self) -> ExtractionView {
        ExtractionView {
            entries: entry_views(self.entries@),
            dest: self.dest@,
            next: self.next as int,
            stage: self.stage,
        }
    }
}

impl ExtractionView {
    pub open spec fn at(self, stage: ExtractStage) -> ExtractionView {
        ExtractionView { stage, ..self }
    }

    /// At the file `n`, or behind the last one.
    pub open spec fn at_file(self, n: int) -> ExtractionView {
        ExtractionView {
            next: n,
            stage: if n >= self.entries.len() {
                ExtractStage::Close
            } else if climbs(steps_down(self.entries[n].0)) {
                ExtractStage::Refused
            } else {
                ExtractStage::Extract
            },
            ..self
        }
    }

    /// Once it has been told. It reports behind every [`EXTRACT_REPORT_EVERY`]th
    /// file, the first one to begin with, and once all are there; the answer to
    /// that last report changes nothing. Nor does what it did not ask for.
    pub open spec fn told(self, e: ExtractEvent) -> ExtractionView {
        match (self.stage, e) {
            (ExtractStage::Extract, ExtractEvent::Extracted) => if self.next % (
            EXTRACT_REPORT_EVERY as int) == 0 {
                self.at(ExtractStage::Report)
            } else {
                self.at_file(self.next + 1)
            },
            (ExtractStage::Report, ExtractEvent::Reported(go_on)) => if go_on {
                self.at_file(self.next + 1)
            } else {
                self.at(ExtractStage::Cancelled)
            },
            (ExtractStage::Close, ExtractEvent::Reported(_)) => self.at(ExtractStage::Done),
            _ => self,
        }
    }
}

/// Before anything is extracted.
pub open spec fn first_extraction(
    entries: Seq<(Seq<char>, usize)>,
    dest: Seq<char>,
) -> ExtractionView {
    (ExtractionView { entries, dest, next: 0, stage: ExtractStage::Close }).at_file(0)
}

impl Extraction {
    pub closed spec fn wf(self) -> bool {
        &&& self.next <= self.entries.len()
        &&& (self.stage == ExtractStage::Extract || self.stage == ExtractStage::Report || self.stage
            == ExtractStage::Refused) ==> self.next < self.entries.len()
        &&& self.stage == ExtractStage::Extract ==> !climbs(
            steps_down(self.entries@[self.next as int].0@),
        )
    }

    /// What is to be done next.
    pub fn action(&self) -> (r: ExtractAction)
        requires
            self.wf(),
        ensures
            match self@.stage {
                ExtractStage::Extract => r matches ExtractAction::Extract { at, path } && at
                    == self@.entries[self@.next].1 && path@ == below(
                    self@.dest,
                    steps_down(self@.entries[self@.next].0),
                ),
                ExtractStage::Report => r matches ExtractAction::Report { done, total } && done
                    == self@.next && total == self@.entries.len(),
                ExtractStage::Close => r matches ExtractAction::Report { done, total } && done
                    == self@.entries.len() && total == self@.entries.len(),
                ExtractStage::Done => r is Finish,
                ExtractStage::Cancelled => r is Cancelled,
                ExtractStage::Refused => r matches ExtractAction::Refused(rel) && rel@
                    == self@.entries[self@.next].0,
            },
    {
        let total = self.entries.len();
        match self.stage {
            ExtractStage::Extract => {
                assert(self@.entries[self.next as int].0 == self.entries@[self.next as int].0@);
                match safe_join(self.dest.as_str(), self.entries[self.next].0.as_str()) {
                    Ok(path) => ExtractAction::Extract { at: self.entries[self.next].1, path },
                    Err(_) => ExtractAction::Cancelled,
                }
            },
            ExtractStage::Report => ExtractAction::Report { done: self.next, total },
            ExtractStage::Close => ExtractAction::Report { done: total, total },
            ExtractStage::Done => ExtractAction::Finish,
            ExtractStage::Cancelled => ExtractAction::Cancelled,
            ExtractStage::Refused => {
                assert(self@.entries[self.next as int].0 == self.entries@[self.next as int].0@);
                ExtractAction::Refused(self.entries[self.next].0.clone())
            },
        }
    }

    /// Go to a file, or behind the last one.
    fn go_to(&mut self, n: usize)
        requires
            n <= old(self).entries.len(),
        ensures
            final(self)@ == old(self)@.at_file(n as int),
            final(self).wf(),
    {
        self.next = n;
        self.stage = if n >= self.entries.len() {
            ExtractStage::Close
        } else {
            assert(self@.entries[n as int].0 == self.entries@[n as int].0@);
            match safe_join(self.dest.as_str(), self.entries[n].0.as_str()) {
                Ok(_) => ExtractStage::Extract,
                Err(_) => ExtractStage::Refused,
            }
        };
    }

    /// Tell what came of it.
    pub fn tell(&mut self, e: ExtractEvent)
        requires
            old(self).wf(),
        ensures
            final(self).wf(),
            final(self)@ == old(self)@.told(e),
    {
        match (self.stage, e) {
            (ExtractStage::Extract, ExtractEvent::Extracted) => {
                if self.next % EXTRACT_REPORT_EVERY == 0 {
                    self.stage = ExtractStage::Report;
                } else {
                    let n = self.next + 1;
                    self.go_to(n);
                }
            },
            (ExtractStage::Report, ExtractEvent::Reported(go_on)) => {
                if go_on {
                    let n = self.next + 1;
                    self.go_to(n);
                } else {
                    self.stage = ExtractStage::Cancelled;
                }
            },
            (ExtractStage::Close, ExtractEvent::Reported(_)) => {
                self.stage = ExtractStage::Done;
            },
            _ => {},
        }
    }
}

impl Pack {
    /// Extract the whole pack into `dest`, re-rooted.
    pub fn extract_all(&self, dest: &str) -> (r: Extraction)
        ensures
            r.wf(),
            r@ == first_extraction(self.index.pairs(), dest@),
    {
        let mut entries: Vec<(String, usize)> = Vec::new();
        let mut i: usize = 0;
        while i < self.index.entries.len()
            invariant
                i <= self.index.entries.len(),
                entries.len() == i,
                forall|j: int|
                    0 <= j < i ==> (#[trigger] entries@[j]).0@ == self.index.entries@[j].0@
                        && entries@[j].1 == self.index.entries@[j].1,
            decreases self.index.entries.len() - i,
        {
            entries.push((self.index.entries[i].0.clone(), self.index.entries[i].1));
            i += 1;
        }
        assert(entry_views(entries@) =~= self.index.pairs());
        let mut r = Extraction {
            entries,
            dest: dest.to_owned(),
            next: 0,
            stage: ExtractStage::Close,
        };
        r.go_to(0);
        r
    }
}

// ---------------------------------------------------------------------------
// Laws
// ---------------------------------------------------------------------------

proof fn lemma_split_pieces(s: Seq<char>, c: char)
    ensures
        forall|i: int| 0 <= i < split(s, c).len() ==> !(#[trigger] split(s, c)[i]).contains(c),
    decreases s.len(),
{
    crate::text::lemma_find(s, c, 0);
    let k = crate::text::find(s, c);
    if k < s.len() {
        lemma_split_pieces(s.skip(k + 1), c);
        assert forall|i: int| 0 <= i < split(s, c).len() implies !(#[trigger] split(s, c)[i]).contains(
            c,
        ) by {
            if i == 0 {
                assert(split(s, c)[0] == s.take(k));
                if s.take(k).contains(c) {
                    assert(s[s.take(k).index_of(c)] == c);
                }
            } else {
                assert(split(s, c)[i] == split(s.skip(k + 1), c)[i - 1]);
            }
        }
    } else {
        assert(split(s, c) =~= seq![s]);
        if s.contains(c) {
            assert(s[s.index_of(c)] == c);
        }
    }
}

/// What is extracted stays below the target: every part of the way down is the
/// name of something in the directory before it, neither empty, nor the
/// directory itself, nor the one above it.
pub proof fn law_extracted_files_stay_below(rel: Seq<char>)
    requires
        !climbs(steps_down(rel)),
    ensures
        forall|i: int|
            0 <= i < steps_down(rel).len() ==> {
                let part = #[trigger] steps_down(rel)[i];
                part.len() > 0 && !part.contains('/') && part != "."@ && part != ".."@
            },
{
    let f = |part: Seq<char>| deeper(part);
    let all = split(rel, '/');
    let parts = steps_down(rel);
    assert(parts == collected(all, f));
    crate::mods::lemma_collected(all, f);
    lemma_split_pieces(rel, '/');
    assert forall|i: int| 0 <= i < parts.len() implies {
        let part = #[trigger] parts[i];
        part.len() > 0 && !part.contains('/') && part != "."@ && part != ".."@
    } by {
        assert(parts.contains(parts[i]));
        let a = choose|a: Seq<char>| all.contains(a) && #[trigger] f(a) == Some(parts[i]);
        assert(f(a) == deeper(a));
        assert(all[all.index_of(a)] == a);
    }
}

/// Extraction when every file can be written and nobody refuses, after `n` answers.
pub open spec fn unhindered(s: ExtractionView, n: nat) -> ExtractionView
    decreases n,
{
    if n == 0 {
        s
    } else {
        let so_far = unhindered(s, (n - 1) as nat);
        so_far.told(
            if so_far.stage == ExtractStage::Extract {
                ExtractEvent::Extracted
            } else {
                ExtractEvent::Reported(true)
            },
        )
    }
}

/// How many answers can still change something.
spec fn left_to_tell(s: ExtractionView) -> int {
    match s.stage {
        ExtractStage::Extract => 2 * (s.entries.len() - s.next) + 1,
        ExtractStage::Report => 2 * (s.entries.len() - s.next),
        ExtractStage::Close => 1,
        _ => 0,
    }
}

spec fn on_course(s: ExtractionView) -> bool {
    match s.stage {
        ExtractStage::Extract => 0 <= s.next < s.entries.len(),
        ExtractStage::Report => 0 <= s.next < s.entries.len(),
        ExtractStage::Close => s.next == s.entries.len(),
        ExtractStage::Done => s.next == s.entries.len(),
        ExtractStage::Cancelled => false,
        ExtractStage::Refused => false,
    }
}

proof fn lemma_unhindered(s: ExtractionView, n: nat)
    requires
        on_course(s),
        forall|i: int|
            0 <= i < s.entries.len() ==> !climbs(steps_down((#[trigger] s.entries[i]).0)),
    ensures
        ({
            let now = unhindered(s, n);
            &&& on_course(now)
            &&& now.entries == s.entries
            &&& now.stage == ExtractStage::Done || left_to_tell(now) <= left_to_tell(s) - n
        }),
    decreases n,
{
    if n > 0 {
        lemma_unhindered(s, (n - 1) as nat);
    }
}

/// Where no entry would escape, every file can be written and nobody refuses, every
/// file of the pack is extracted: two answers for each and one more are enough.
pub proof fn law_extraction_comes_to_an_end(entries: Seq<(Seq<char>, usize)>, dest: Seq<char>)
    requires
        forall|i: int| 0 <= i < entries.len() ==> !climbs(steps_down((#[trigger] entries[i]).0)),
    ensures
        ({
            let end = unhindered(first_extraction(entries, dest), 2 * entries.len() + 1);
            end.stage == ExtractStage::Done && end.next == entries.len()
        }),
{
    lemma_unhindered(first_extraction(entries, dest), 2 * entries.len() + 1);
}

/// A file is passed over only once it is written, and a refusal, of the user or of
/// an entry that would escape, ends extraction for good. At the last report the
/// answer changes nothing.
pub proof fn law_extraction_goes_file_by_file(s: ExtractionView, e: ExtractEvent)
    ensures
        s.told(e).next == s.next || s.told(e).next == s.next + 1,
        s.told(e).next == s.next + 1 ==> (s.stage == ExtractStage::Extract && e
            == ExtractEvent::Extracted) || (s.stage == ExtractStage::Report && e
            == ExtractEvent::Reported(true)),
        s.told(e).stage == ExtractStage::Cancelled <==> s.stage == ExtractStage::Cancelled || (
        s.stage == ExtractStage::Report && e == ExtractEvent::Reported(false)),
        s.stage == ExtractStage::Cancelled || s.stage == ExtractStage::Refused ==> s.told(e) == s,
        s.stage == ExtractStage::Close && e is Reported ==> s.told(e).stage == ExtractStage::Done,
{
}

// ---------------------------------------------------------------------------
// Laws on what is in a pack
// ---------------------------------------------------------------------------

/// The folder round a pack is found where every path starts with it and a slash; where
/// one path does not, or stands in no folder at all, there is none.
pub proof fn law_the_folder_round_a_pack(names: Seq<Seq<char>>, folder: Seq<char>)
    requires
        !folder.contains('/'),
        names.len() > 0,
    ensures
        (forall|i: int| 0 <= i < names.len() ==> (folder + "/"@).is_prefix_of(#[trigger] names[i]))
            <==> root_of(names) == Some(folder + "/"@),
        (exists|i: int| 0 <= i < names.len() && !(#[trigger] names[i]).contains('/')) ==> root_of(
            names,
        ) is None,
{
    reveal_strlit("/");
    assert("/"@ =~= seq!['/']);
    let root = folder + "/"@;
    assert(folder.push('/') =~= root);
    assert forall|i: int| 0 <= i < names.len() implies (root.is_prefix_of(#[trigger] names[i])
        <==> folder_of(names[i]) == Some(folder)) by {
        lemma_folder(names[i], folder);
    }
    if forall|i: int| 0 <= i < names.len() ==> root.is_prefix_of(#[trigger] names[i]) {
        assert(root.is_prefix_of(names[0]));
        assert(all_under(names, folder));
    }
    if root_of(names) == Some(root) {
        let first = folder_of(names[0])->0;
        assert(first.push('/').drop_last() =~= first);
        assert(root.drop_last() =~= folder);
        assert forall|i: int| 0 <= i < names.len() implies root.is_prefix_of(#[trigger] names[i]) by {
            assert(folder_of(names[i]) == Some(folder));
        }
    }
    if exists|i: int| 0 <= i < names.len() && !(#[trigger] names[i]).contains('/') {
        let i = choose|i: int| 0 <= i < names.len() && !(#[trigger] names[i]).contains('/');
        crate::text::law_cutting_at_the_first(names[i], '/', Seq::empty());
        assert(folder_of(names[i]) is None);
    }
}

proof fn lemma_folder(name: Seq<char>, folder: Seq<char>)
    requires
        !folder.contains('/'),
    ensures
        (folder + "/"@).is_prefix_of(name) <==> folder_of(name) == Some(folder),
{
    reveal_strlit("/");
    assert("/"@ =~= seq!['/']);
    let root = folder + "/"@;
    if root.is_prefix_of(name) {
        let rest = name.skip(root.len() as int);
        assert(name =~= folder + seq!['/'] + rest);
        crate::text::law_cutting_at_the_first(folder, '/', rest);
    }
    if folder_of(name) == Some(folder) {
        crate::text::lemma_find(name, '/', 0);
        let k = crate::text::find(name, '/');
        assert(name.take(k) == folder);
        assert(name.subrange(0, root.len() as int) =~= root) by {
            assert forall|j: int| 0 <= j < root.len() implies name[j] == root[j] by {
                if j < k {
                    assert(name.take(k)[j] == name[j]);
                }
            }
        }
    }
}

proof fn lemma_named(names: Seq<Option<String>>, e: (Seq<char>, usize))
    requires
        names.len() <= usize::MAX,
    ensures
        named_entries(names).contains(e) <==> (e.1 < names.len() && names[e.1 as int] is Some && e.0
            == without_dots(forward_slashes(names[e.1 as int]->0@))),
    decreases names.len(),
{
    if names.len() > 0 {
        let init = names.drop_last();
        let less = named_entries(init);
        let all = named_entries(names);
        lemma_named(init, e);
        let k = names.len() - 1;
        if all.contains(e) {
            let i = all.index_of(e);
            if i < less.len() {
                assert(less[i] == e);
                assert(less.contains(e));
                assert(init[e.1 as int] == names[e.1 as int]);
            }
        }
        if e.1 < names.len() && names[e.1 as int] is Some && e.0 == without_dots(
            forward_slashes(names[e.1 as int]->0@),
        ) {
            if e.1 < k {
                assert(init[e.1 as int] == names[e.1 as int]);
                assert(less.contains(e));
                assert(all[less.index_of(e)] == e);
            } else {
                assert(all[less.len() as int] == e);
            }
        }
    }
}

/// The files of a pack are the entries of the zip under their normalised names without
/// the folder round the pack: all of them but the folders themselves, each with its
/// place in the zip.
pub proof fn law_a_pack_holds_every_file(
    names: Seq<Option<String>>,
    folder: Seq<char>,
    rel: Seq<char>,
    k: usize,
)
    requires
        names.len() <= usize::MAX,
        k < names.len(),
        names[k as int] is Some,
    ensures
        ({
            let name = without_dots(forward_slashes(names[k as int]->0@));
            let wrapped = !folder.contains('/') && forall|i: int|
                0 <= i < names.len() && #[trigger] names[i] is Some ==> (folder
                    + "/"@).is_prefix_of(without_dots(forward_slashes(names[i]->0@)));
            let bare = exists|i: int|
                0 <= i < names.len() && #[trigger] names[i] is Some && !without_dots(
                    forward_slashes(names[i]->0@),
                ).contains('/');
            let file = name.len() > 0 && name.last() != '/';
            &&& wrapped && name == folder + "/"@ + rel && file ==> pack_files(names).contains(
                (rel, k),
            )
            &&& bare && file ==> pack_files(names).contains((name, k))
            &&& !file ==> forall|r: Seq<char>| !#[trigger] pack_files(names).contains((r, k))
        }),
{
    let named = named_entries(names);
    let keys = crate::textmap::entry_keys(named);
    let root = root_of(keys);
    let f = |e: (Seq<char>, usize)| rerooted(e, root);
    let name = without_dots(forward_slashes(names[k as int]->0@));
    let e = (name, k);
    crate::mods::lemma_collected(named, f);
    assert(pack_files(names) == collected(named, f));
    lemma_named(names, e);
    assert(named.contains(e));
    let at = named.index_of(e);
    assert(keys[at] == name);
    let wrapped = !folder.contains('/') && forall|i: int|
        0 <= i < names.len() && #[trigger] names[i] is Some ==> (folder + "/"@).is_prefix_of(
            without_dots(forward_slashes(names[i]->0@)),
        );
    let file = name.len() > 0 && name.last() != '/';
    if wrapped && name == folder + "/"@ + rel && file {
        assert forall|i: int| 0 <= i < keys.len() implies (folder + "/"@).is_prefix_of(
            #[trigger] keys[i],
        ) by {
            assert(named.contains(named[i]));
            lemma_named(names, named[i]);
            assert(names[named[i].1 as int] is Some);
        }
        law_the_folder_round_a_pack(keys, folder);
        crate::text::law_stripping(rel, folder + "/"@);
        reveal_strlit("/");
        if rel.len() == 0 {
            assert(name.last() == '/');
        }
        assert(f(e) == Some((rel, k)));
    }
    if (exists|i: int|
        0 <= i < names.len() && #[trigger] names[i] is Some && !without_dots(
            forward_slashes(names[i]->0@),
        ).contains('/')) && file {
        let i = choose|i: int|
            0 <= i < names.len() && #[trigger] names[i] is Some && !without_dots(
                forward_slashes(names[i]->0@),
            ).contains('/');
        let top = (without_dots(forward_slashes(names[i]->0@)), i as usize);
        lemma_named(names, top);
        assert(named.contains(top));
        assert(keys[named.index_of(top)] == top.0);
        law_the_folder_round_a_pack(keys, Seq::empty());
        assert(f(e) == Some((name, k)));
    }
    if !file {
        assert forall|r: Seq<char>| !#[trigger] pack_files(names).contains((r, k)) by {
            if pack_files(names).contains((r, k)) {
                let a = choose|a: (Seq<char>, usize)|
                    named.contains(a) && #[trigger] f(a) == Some((r, k));
                assert(rerooted(a, root) == Some((r, k)));
                lemma_named(names, a);
            }
        }
    }
}

/// An entry is refused exactly where `..` stands between two of its slashes or at an
/// end. The others are followed part by part: empty parts and single dots are passed
/// over, and each other part is a step down.
pub proof fn law_where_an_entry_goes(
    base: Seq<char>,
    a: Seq<char>,
    part: Seq<char>,
)
    requires
        !part.contains('/'),
    ensures
        climbs(steps_down(a)) <==> split(a, '/').contains(".."@),
        steps_down(a + "/"@ + part) == (if part.len() == 0 || part == "."@ {
            steps_down(a)
        } else {
            steps_down(a).push(part)
        }),
        steps_down(part) == (if part.len() == 0 || part == "."@ {
            Seq::empty()
        } else {
            seq![part]
        }),
        below(base, steps_down(a).push(part)) == path_in(below(base, steps_down(a)), part),
        below(base, Seq::empty()) == base,
{
    reveal_strlit("/");
    reveal_strlit("..");
    reveal_strlit(".");
    assert("/"@ =~= seq!['/']);
    let f = |p: Seq<char>| deeper(p);
    let parts = split(a, '/');
    crate::mods::lemma_collected(parts, f);
    assert(steps_down(a) == collected(parts, f));
    assert(".."@.len() == 2 && "."@.len() == 1);
    if parts.contains(".."@) {
        assert(f(".."@) == Some(".."@));
    }
    if climbs(steps_down(a)) {
        let p = choose|p: Seq<char>| parts.contains(p) && #[trigger] f(p) == Some(".."@);
        assert(deeper(p) == Some(".."@));
    }
    crate::text::lemma_find(part, '/', 0);
    if crate::text::find(part, '/') < part.len() {
        assert(part.contains(part[crate::text::find(part, '/')]));
    }
    assert(split(part, '/') =~= seq![part]);
    crate::mods::lemma_split_concat(a, part, '/');
    let longer = split(a + "/"@ + part, '/');
    assert(longer =~= parts.push(part));
    assert(longer.drop_last() =~= parts);
    assert(collected(longer, f) == if deeper(part) is Some {
        collected(parts, f).push(part)
    } else {
        collected(parts, f)
    });
    let one = seq![part];
    assert(one.drop_last() =~= Seq::empty());
    reveal_with_fuel(collected, 2);
    assert(collected(one, f) =~= if deeper(part) is Some {
        seq![part]
    } else {
        Seq::empty()
    });
    assert(steps_down(part) == collected(one, f));
    assert(steps_down(a).push(part).drop_last() =~= steps_down(a));
}

/// Extraction reports behind the first file and then behind every sixty-fourth.
pub proof fn law_reports_come_at_even_distances(s: ExtractionView)
    requires
        s.stage == ExtractStage::Extract,
    ensures
        s.told(ExtractEvent::Extracted).stage == ExtractStage::Report <==> s.next % 64 == 0,
        s.next % 64 != 0 ==> s.told(ExtractEvent::Extracted).next == s.next + 1,
{
}

/// Where an entry is written, asked of the call itself.
pub proof fn law_what_joining_an_entry_gives(base: &str, rel: &str, r: Result<String, PackError>)
    requires
        call_ensures(safe_join, (base, rel), r),
    ensures
        r is Err <==> split(rel@, '/').contains(".."@),
        r matches Err(e) ==> e == PackError::Escapes,
        r matches Ok(path) ==> path@ == below(base@, steps_down(rel@)),
        r matches Ok(path) ==> (rel@.len() > 0 && !rel@.contains('/') && rel@ != "."@ ==> path@
            == path_in(base@, rel@)),
{
    law_where_an_entry_goes(base@, rel@, Seq::empty());
    if !rel@.contains('/') {
        law_where_an_entry_goes(base@, Seq::empty(), rel@);
        let one = seq![rel@];
        assert(one.drop_last() =~= Seq::empty());
        reveal_with_fuel(below, 2);
    }
}

/// What is said where a pack cannot be read.
pub proof fn law_what_a_bad_pack_says(e: PackError, rel: &str, r: String)
    requires
        call_ensures(PackError::message, (e, rel), r),
    ensures
        e is NoFiles ==> r@ == "pack zip contained no files"@,
        e is Missing ==> r@ == rel@ + " is not in the pack"@,
        e is Escapes ==> r@ == "pack entry "@ + rel@ + " tried to escape the target directory"@,
{
}

/// What unpacking asks for: the entry it has come to, below the destination, and reports
/// that count to the number of entries and end there.
pub proof fn law_what_unpacking_asks_for(s: Extraction, r: ExtractAction)
    requires
        call_ensures(Extraction::action, (&s,), r),
    ensures
        r matches ExtractAction::Extract { at, path } ==> at == s@.entries[s@.next].1 && path@
            == below(s@.dest, steps_down(s@.entries[s@.next].0)),
        r matches ExtractAction::Refused(rel) ==> rel@ == s@.entries[s@.next].0,
        r matches ExtractAction::Report { done, total } ==> total == s@.entries.len(),
        s@.stage == ExtractStage::Report ==> (r matches ExtractAction::Report { done, total } && done
            == s@.next),
        s@.stage == ExtractStage::Close ==> (r matches ExtractAction::Report { done, total } && done
            == total),
        r is Extract <==> s@.stage == ExtractStage::Extract,
        r is Refused <==> s@.stage == ExtractStage::Refused,
        r is Finish <==> s@.stage == ExtractStage::Done,
        r is Cancelled <==> s@.stage == ExtractStage::Cancelled,
{
}

} // verus!
