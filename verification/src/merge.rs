//! Three-way text merge and the structured conflict model that gets edited.
//!
//! `diffy` produces git-style diff3 output; that gets parsed straight back into
//! segments so each conflict keeps all three sides (yours / original / pack) and
//! can be resolved independently.
use vstd::prelude::*;
use vstd::string::*;

use crate::text::{
    chars_of, ends_line, full_lines, lemma_lines_concat, lemma_lines_run_on, lemma_single_line,
    lines_inclusive, run_on, texts,
};

verus! {

pub const OURS_MARK: char = '<';

pub const BASE_MARK: char = '|';

pub const SPLIT_MARK: char = '=';

pub const THEIRS_MARK: char = '>';

/// How often a marker repeats its character, unless the files hold such runs
/// themselves.
pub const MARK_LENGTH: usize = 7;

// ---------------------------------------------------------------------------
// Types
// ---------------------------------------------------------------------------

#[derive(Debug, Clone)]
pub enum Segment {
    /// Text both sides agree on (or that only one side touched).
    Stable(String),
    Conflict { ours: String, base: String, theirs: String },
}

#[derive(Debug, Clone, Copy, PartialEq, Eq, Structural)]
pub enum Choice {
    /// Keep the version from the instance being upgraded.
    Ours,
    /// Take the version the new pack ships.
    Theirs,
    /// Yours first, then the pack's.
    Both,
    /// The pack's first, then yours.
    BothReversed,
    /// Hand-edited text held in `Hunk::custom`.
    Custom,
}

#[derive(Debug, Clone)]
pub struct Hunk {
    pub ours: String,
    pub base: String,
    pub theirs: String,
    pub choice: Choice,
    pub custom: String,
}

/// A file's merge state: the stable text around each conflict plus the conflicts.
#[derive(Debug, Clone)]
pub struct TextMerge {
    /// Alternating layout is not assumed; segments are stored in order.
    pub segments: Vec<Segment>,
    pub hunks: Vec<Hunk>,
    /// Set when the user chose to hand-edit the whole file.
    pub manual: Option<String>,
}

/// Result of merging one text file.
pub enum MergeOutcome {
    /// Merged cleanly; no user input needed.
    Clean(String),
    /// Needs the conflict editor.
    Conflicted(TextMerge),
}

// ---------------------------------------------------------------------------
// Views
// ---------------------------------------------------------------------------

/// A segment as texts.
pub enum SegmentView {
    Stable(Seq<char>),
    Conflict { ours: Seq<char>, base: Seq<char>, theirs: Seq<char> },
}

/// A hunk as texts.
pub struct HunkView {
    pub ours: Seq<char>,
    pub base: Seq<char>,
    pub theirs: Seq<char>,
    pub choice: Choice,
    pub custom: Seq<char>,
}

/// A merge as texts.
pub struct MergeView {
    pub segments: Seq<SegmentView>,
    pub hunks: Seq<HunkView>,
    pub manual: Option<Seq<char>>,
}

impl View for Segment {
    type V = SegmentView;

    open spec fn view(&self) -> SegmentView {
        match *self {
            Segment::Stable(t) => SegmentView::Stable(t@),
            Segment::Conflict { ours, base, theirs } => SegmentView::Conflict {
                ours: ours@,
                base: base@,
                theirs: theirs@,
            },
        }
    }
}

impl View for Hunk {
    type V = HunkView;

    open spec fn view(&self) -> HunkView {
        HunkView {
            ours: self.ours@,
            base: self.base@,
            theirs: self.theirs@,
            choice: self.choice,
            custom: self.custom@,
        }
    }
}

pub open spec fn segment_views(s: Seq<Segment>) -> Seq<SegmentView> {
    s.map_values(|x: Segment| x@)
}

pub open spec fn hunk_views(s: Seq<Hunk>) -> Seq<HunkView> {
    s.map_values(|x: Hunk| x@)
}

pub open spec fn optional_text(s: Option<String>) -> Option<Seq<char>> {
    match s {
        Some(t) => Some(t@),
        None => None,
    }
}

impl View for TextMerge {
    type V = MergeView;

    open spec fn view(&self) -> MergeView {
        MergeView {
            segments: segment_views(self.segments@),
            hunks: hunk_views(self.hunks@),
            manual: optional_text(self.manual),
        }
    }
}

// ---------------------------------------------------------------------------
// Resolving a hunk
// ---------------------------------------------------------------------------

/// Two texts one behind the other, the second on a line of its own.
pub open spec fn stacked(a: Seq<char>, b: Seq<char>) -> Seq<char> {
    if a.len() == 0 {
        b
    } else if b.len() == 0 {
        a
    } else if a.last() == '\n' {
        a + b
    } else {
        a.push('\n') + b
    }
}

impl HunkView {
    /// The text that the choice puts into the file.
    pub open spec fn resolved(self) -> Seq<char> {
        match self.choice {
            Choice::Ours => self.ours,
            Choice::Theirs => self.theirs,
            Choice::Both => stacked(self.ours, self.theirs),
            Choice::BothReversed => stacked(self.theirs, self.ours),
            Choice::Custom => self.custom,
        }
    }
}

pub(crate) fn ends_in_newline(s: &str) -> (r: bool)
    ensures
        r == (s@.len() > 0 && s@.last() == '\n'),
{
    let v = crate::text::chars_of(s);
    v.len() > 0 && v[v.len() - 1] == '\n'
}

fn join(a: &str, b: &str) -> (r: String)
    ensures
        r@ == stacked(a@, b@),
{
    if a.is_empty() {
        return b.to_owned();
    }
    if b.is_empty() {
        return a.to_owned();
    }
    let mut out = a.to_owned();
    if !ends_in_newline(a) {
        out.push('\n');
    }
    out.append(b);
    out
}

impl Hunk {
    pub fn resolved(&self) -> (r: String)
        ensures
            r@ == self@.resolved(),
            self.choice == Choice::Ours ==> r@ == self.ours@,
            self.choice == Choice::Theirs ==> r@ == self.theirs@,
            self.choice == Choice::Custom ==> r@ == self.custom@,
    {
        match self.choice {
            Choice::Ours => self.ours.clone(),
            Choice::Theirs => self.theirs.clone(),
            Choice::Both => join(self.ours.as_str(), self.theirs.as_str()),
            Choice::BothReversed => join(self.theirs.as_str(), self.ours.as_str()),
            Choice::Custom => self.custom.clone(),
        }
    }
}

// ---------------------------------------------------------------------------
// Rendering
// ---------------------------------------------------------------------------

/// How many conflicts stand among the segments.
pub open spec fn conflict_count(segments: Seq<SegmentView>) -> nat
    decreases segments.len(),
{
    if segments.len() == 0 {
        0
    } else {
        conflict_count(segments.drop_last()) + if segments.last() is Conflict {
            1nat
        } else {
            0nat
        }
    }
}

/// `out` with a resolved piece behind it: a piece that is not empty starts a
/// line of its own.
pub open spec fn with_piece(out: Seq<char>, piece: Seq<char>) -> Seq<char> {
    if out.len() > 0 && out.last() != '\n' && piece.len() > 0 {
        out.push('\n') + piece
    } else {
        out + piece
    }
}

/// The stable texts and the resolved conflicts in order; the conflicts take the
/// hunks one after the other.
pub open spec fn composed(segments: Seq<SegmentView>, hunks: Seq<HunkView>) -> Seq<char>
    decreases segments.len(),
{
    if segments.len() == 0 {
        Seq::empty()
    } else {
        let out = composed(segments.drop_last(), hunks);
        match segments.last() {
            SegmentView::Stable(t) => out + t,
            SegmentView::Conflict { .. } => {
                let n = conflict_count(segments.drop_last());
                if n < hunks.len() {
                    with_piece(out, hunks[n as int].resolved())
                } else {
                    out
                }
            },
        }
    }
}

impl MergeView {
    /// The file as it stands: the hand-edited text if there is one, else the
    /// segments with the choices applied.
    pub open spec fn rendered(self) -> Seq<char> {
        match self.manual {
            Some(t) => t,
            None => composed(self.segments, self.hunks),
        }
    }
}

impl TextMerge {
    /// The merged file as it stands with the current choices applied.
    pub fn render(&self) -> (r: String)
        ensures
            r@ == self@.rendered(),
    {
        if let Some(manual) = &self.manual {
            return manual.clone();
        }
        let mut out = String::new();
        let mut hunk_i: usize = 0;
        let mut i: usize = 0;
        let ghost segs = segment_views(self.segments@);
        let ghost hunks = hunk_views(self.hunks@);
        assert(segs.take(0) =~= Seq::empty());
        while i < self.segments.len()
            invariant
                i <= self.segments.len(),
                segs == segment_views(self.segments@),
                hunks == hunk_views(self.hunks@),
                hunk_i <= i,
                hunk_i == conflict_count(segs.take(i as int)),
                out@ == composed(segs.take(i as int), hunks),
            decreases self.segments.len() - i,
        {
            proof {
                assert(segs.take(i + 1).drop_last() =~= segs.take(i as int));
                assert(segs.take(i + 1).last() == self.segments@[i as int]@);
            }
            match &self.segments[i] {
                Segment::Stable(text) => {
                    out.append(text.as_str());
                },
                Segment::Conflict { .. } => {
                    if hunk_i < self.hunks.len() {
                        let piece = self.hunks[hunk_i].resolved();
                        assert(hunks[hunk_i as int] == self.hunks@[hunk_i as int]@);
                        if !out.as_str().is_empty() && !ends_in_newline(out.as_str())
                            && !piece.as_str().is_empty() {
                            out.push('\n');
                        }
                        out.append(piece.as_str());
                    }
                    hunk_i += 1;
                },
            }
            i += 1;
        }
        assert(segs.take(i as int) =~= segs);
        out
    }
}

// ---------------------------------------------------------------------------
// Markers
// ---------------------------------------------------------------------------

/// The line starts with at least `n` times that character.
pub open spec fn opens(line: Seq<char>, c: char, n: nat) -> bool {
    n <= line.len() && forall|i: int| 0 <= i < n ==> #[trigger] line[i] == c
}

fn opens_with(line: &str, c: char, n: usize) -> (r: bool)
    ensures
        r == opens(line@, c, n as nat),
{
    let v = chars_of(line);
    if v.len() < n {
        return false;
    }
    let mut i: usize = 0;
    while i < n
        invariant
            v@ == line@,
            i <= n <= v.len(),
            forall|j: int| 0 <= j < i ==> #[trigger] line@[j] == c,
        decreases n - i,
    {
        if v[i] != c {
            assert(line@[i as int] != c);
            return false;
        }
        i += 1;
    }
    true
}

pub open spec fn is_mark(c: char) -> bool {
    c == OURS_MARK || c == BASE_MARK || c == SPLIT_MARK || c == THEIRS_MARK
}

/// How often the line repeats that character at its start.
pub open spec fn run_of(line: Seq<char>, c: char) -> nat
    decreases line.len(),
{
    if line.len() > 0 && line[0] == c {
        1 + run_of(line.skip(1), c)
    } else {
        0
    }
}

/// The run of a marker's character that the line starts with.
pub open spec fn mark_run(line: Seq<char>) -> nat {
    if line.len() > 0 && is_mark(line[0]) {
        run_of(line, line[0])
    } else {
        0
    }
}

/// The longest run of a marker's character that a line starts with.
pub open spec fn longest_run(lines: Seq<Seq<char>>) -> nat
    decreases lines.len(),
{
    if lines.len() == 0 {
        0
    } else {
        let init = longest_run(lines.drop_last());
        if mark_run(lines.last()) > init {
            mark_run(lines.last())
        } else {
            init
        }
    }
}

pub open spec fn longer(a: nat, b: nat) -> nat {
    if a >= b {
        a
    } else {
        b
    }
}

/// The least length of markers, seven or more, that no line of the three texts
/// looks like.
pub open spec fn marker_len(base: Seq<char>, ours: Seq<char>, theirs: Seq<char>) -> nat {
    longer(
        MARK_LENGTH as nat,
        longer(
            longest_run(lines_inclusive(base)),
            longer(longest_run(lines_inclusive(ours)), longest_run(lines_inclusive(theirs))),
        ) + 1,
    )
}

proof fn lemma_run(line: Seq<char>, c: char, n: nat)
    ensures
        opens(line, c, n) <==> n <= run_of(line, c),
        run_of(line, c) <= line.len(),
    decreases line.len(),
{
    if line.len() > 0 && line[0] == c {
        let rest = line.skip(1);
        if n > 0 {
            lemma_run(rest, c, (n - 1) as nat);
            if opens(line, c, n) {
                assert forall|i: int| 0 <= i < n - 1 implies #[trigger] rest[i] == c by {
                    assert(rest[i] == line[i + 1]);
                }
            }
            if opens(rest, c, (n - 1) as nat) {
                assert forall|i: int| 0 <= i < n implies #[trigger] line[i] == c by {
                    if i > 0 {
                        assert(line[i] == rest[i - 1]);
                    }
                }
            }
        } else {
            lemma_run(rest, c, 0);
        }
    } else if n > 0 && line.len() > 0 {
        assert(line[0] != c);
    }
}

proof fn lemma_longest(lines: Seq<Seq<char>>, i: int)
    requires
        0 <= i < lines.len(),
    ensures
        mark_run(lines[i]) <= longest_run(lines),
    decreases lines.len(),
{
    if i < lines.len() - 1 {
        lemma_longest(lines.drop_last(), i);
        assert(lines.drop_last()[i] == lines[i]);
    }
}

fn run_length(line: &str) -> (r: usize)
    ensures
        r == mark_run(line@),
        r <= line@.len(),
{
    let v = chars_of(line);
    if v.len() == 0 {
        return 0;
    }
    let c = v[0];
    if c != OURS_MARK && c != BASE_MARK && c != SPLIT_MARK && c != THEIRS_MARK {
        return 0;
    }
    let mut i: usize = 0;
    while i < v.len() && v[i] == c
        invariant
            v@ == line@,
            i <= v.len(),
            forall|j: int| 0 <= j < i ==> #[trigger] line@[j] == c,
        decreases v.len() - i,
    {
        i += 1;
    }
    proof {
        lemma_run(line@, c, i as nat);
        lemma_run(line@, c, (i + 1) as nat);
        if i < v.len() {
            assert(line@[i as int] != c);
        }
    }
    i
}

fn longest_of(text: &str) -> (r: usize)
    ensures
        r == longest_run(lines_inclusive(text@)),
        r <= isize::MAX,
{
    let lines = full_lines(text);
    let ghost all = texts(lines@);
    let mut best: usize = 0;
    let mut i: usize = 0;
    assert(all.take(0) =~= Seq::empty());
    while i < lines.len()
        invariant
            all == texts(lines@),
            i <= lines.len(),
            best == longest_run(all.take(i as int)),
            best <= isize::MAX,
            forall|j: int| 0 <= j < lines.len() ==> (#[trigger] lines@[j])@.len() <= isize::MAX,
        decreases lines.len() - i,
    {
        let n = run_length(lines[i].as_str());
        proof {
            assert(lines@[i as int]@.len() <= isize::MAX);
            assert(all.take(i + 1).drop_last() =~= all.take(i as int));
            assert(all.take(i + 1).last() == lines@[i as int]@);
        }
        if n > best {
            best = n;
        }
        i += 1;
    }
    assert(all.take(i as int) =~= all);
    best
}

/// The length of markers that no line of the three texts can be taken for.
pub fn marker_length(base: &str, ours: &str, theirs: &str) -> (r: usize)
    ensures
        r == marker_len(base@, ours@, theirs@),
{
    let mut n = longest_of(base);
    let o = longest_of(ours);
    if o > n {
        n = o;
    }
    let t = longest_of(theirs);
    if t > n {
        n = t;
    }
    if n < MARK_LENGTH {
        MARK_LENGTH
    } else {
        n + 1
    }
}

// ---------------------------------------------------------------------------
// Parsing diff3 output
// ---------------------------------------------------------------------------

/// Which part of a conflict the next line belongs to.
#[derive(Debug, Clone, Copy, PartialEq, Eq, Structural)]
pub enum Side {
    /// Outside a conflict.
    Stable,
    Ours,
    Base,
    Theirs,
}

/// What has been read of a text with conflict markers.
pub struct Reading {
    pub segments: Seq<SegmentView>,
    pub hunks: Seq<HunkView>,
    pub side: Side,
    /// Stable text not yet put into a segment.
    pub stable: Seq<char>,
    pub ours: Seq<char>,
    pub base: Seq<char>,
    pub theirs: Seq<char>,
}

/// The stable text read so far as a segment, if it is not empty.
pub open spec fn flushed(segments: Seq<SegmentView>, stable: Seq<char>) -> Seq<SegmentView> {
    if stable.len() > 0 {
        segments.push(SegmentView::Stable(stable))
    } else {
        segments
    }
}

/// A conflict as it comes out of a merge: the pack's side is chosen, which keeps
/// an untouched instance tracking upstream.
pub open spec fn fresh_hunk(ours: Seq<char>, base: Seq<char>, theirs: Seq<char>) -> HunkView {
    HunkView { ours, base, theirs, choice: Choice::Theirs, custom: Seq::empty() }
}

impl Reading {
    pub open spec fn start() -> Reading {
        Reading {
            segments: Seq::empty(),
            hunks: Seq::empty(),
            side: Side::Stable,
            stable: Seq::empty(),
            ours: Seq::empty(),
            base: Seq::empty(),
            theirs: Seq::empty(),
        }
    }

    /// The line is a marker that ends the part that is being read.
    pub open spec fn ends_with(self, line: Seq<char>, n: nat) -> bool {
        match self.side {
            Side::Stable => opens(line, OURS_MARK, n),
            Side::Ours => opens(line, BASE_MARK, n) || opens(line, SPLIT_MARK, n),
            Side::Base => opens(line, SPLIT_MARK, n),
            Side::Theirs => opens(line, THEIRS_MARK, n),
        }
    }

    /// One more line: a marker that fits the place opens the next part, any other
    /// line belongs to the part it stands in. A conflict may come without the
    /// original.
    pub open spec fn line(self, line: Seq<char>, n: nat) -> Reading {
        if self.ends_with(line, n) {
            match self.side {
                Side::Stable => Reading {
                    segments: flushed(self.segments, self.stable),
                    stable: Seq::empty(),
                    side: Side::Ours,
                    ..self
                },
                Side::Ours => if opens(line, BASE_MARK, n) {
                    Reading { side: Side::Base, ..self }
                } else {
                    Reading { side: Side::Theirs, ..self }
                },
                Side::Base => Reading { side: Side::Theirs, ..self },
                Side::Theirs => Reading {
                    segments: self.segments.push(
                        SegmentView::Conflict {
                            ours: self.ours,
                            base: self.base,
                            theirs: self.theirs,
                        },
                    ),
                    hunks: self.hunks.push(fresh_hunk(self.ours, self.base, self.theirs)),
                    side: Side::Stable,
                    ours: Seq::empty(),
                    base: Seq::empty(),
                    theirs: Seq::empty(),
                    ..self
                },
            }
        } else {
            self.text(line)
        }
    }

    /// Text that belongs to the part that is being read.
    pub open spec fn text(self, text: Seq<char>) -> Reading {
        match self.side {
            Side::Stable => Reading { stable: self.stable + text, ..self },
            Side::Ours => Reading { ours: self.ours + text, ..self },
            Side::Base => Reading { base: self.base + text, ..self },
            Side::Theirs => Reading { theirs: self.theirs + text, ..self },
        }
    }

    pub open spec fn all(self, lines: Seq<Seq<char>>, n: nat) -> Reading
        decreases lines.len(),
    {
        if lines.len() == 0 {
            self
        } else {
            self.all(lines.drop_last(), n).line(lines.last(), n)
        }
    }

    /// The merge that has been read. A conflict that never ended is left out.
    pub open spec fn done(self) -> MergeView {
        MergeView {
            segments: flushed(self.segments, self.stable),
            hunks: self.hunks,
            manual: None,
        }
    }
}

/// The stable texts and three-sided conflicts of a text with conflict markers of
/// length `n`.
pub open spec fn parsed(text: Seq<char>, n: nat) -> MergeView {
    Reading::start().all(lines_inclusive(text), n).done()
}

/// Split diff3 output back into stable text and three-sided conflicts.
pub fn parse_markers(text: &str, marker_len: usize) -> (r: TextMerge)
    ensures
        r@ == parsed(text@, marker_len as nat),
{
    let lines = full_lines(text);
    let mut segments: Vec<Segment> = Vec::new();
    let mut hunks: Vec<Hunk> = Vec::new();
    let mut stable = String::new();
    let mut side = Side::Stable;
    let mut ours = String::new();
    let mut base = String::new();
    let mut theirs = String::new();
    let mut i: usize = 0;
    let ghost all = texts(lines@);
    let ghost n = marker_len as nat;
    proof {
        assert(all.take(0) =~= Seq::empty());
        assert(segment_views(segments@) =~= Seq::empty());
        assert(hunk_views(hunks@) =~= Seq::empty());
    }
    while i < lines.len()
        invariant
            i <= lines.len(),
            n == marker_len as nat,
            all == texts(lines@),
            (Reading {
                segments: segment_views(segments@),
                hunks: hunk_views(hunks@),
                side,
                stable: stable@,
                ours: ours@,
                base: base@,
                theirs: theirs@,
            }) == Reading::start().all(all.take(i as int), n),
        decreases lines.len() - i,
    {
        let line = lines[i].as_str();
        let ghost segs0 = segment_views(segments@);
        let ghost hunks0 = hunk_views(hunks@);
        proof {
            assert(all.take(i + 1).drop_last() =~= all.take(i as int));
            assert(all.take(i + 1).last() == line@);
        }
        match side {
            Side::Stable => {
                if opens_with(line, OURS_MARK, marker_len) {
                    if !stable.as_str().is_empty() {
                        let ghost t = stable@;
                        segments.push(Segment::Stable(stable));
                        assert(segment_views(segments@) =~= segs0.push(SegmentView::Stable(t)));
                        stable = String::new();
                    } else {
                        assert(stable@ =~= Seq::empty());
                    }
                    side = Side::Ours;
                } else {
                    stable.append(line);
                }
            },
            Side::Ours => {
                if opens_with(line, BASE_MARK, marker_len) {
                    side = Side::Base;
                } else if opens_with(line, SPLIT_MARK, marker_len) {
                    side = Side::Theirs;
                } else {
                    ours.append(line);
                }
            },
            Side::Base => {
                if opens_with(line, SPLIT_MARK, marker_len) {
                    side = Side::Theirs;
                } else {
                    base.append(line);
                }
            },
            Side::Theirs => {
                if opens_with(line, THEIRS_MARK, marker_len) {
                    segments.push(
                        Segment::Conflict {
                            ours: ours.clone(),
                            base: base.clone(),
                            theirs: theirs.clone(),
                        },
                    );
                    proof {
                        assert(segment_views(segments@) =~= segs0.push(
                            SegmentView::Conflict { ours: ours@, base: base@, theirs: theirs@ },
                        ));
                    }
                    let ghost h = fresh_hunk(ours@, base@, theirs@);
                    hunks.push(
                        Hunk { ours, base, theirs, choice: Choice::Theirs, custom: String::new() },
                    );
                    assert(hunk_views(hunks@) =~= hunks0.push(h));
                    ours = String::new();
                    base = String::new();
                    theirs = String::new();
                    side = Side::Stable;
                } else {
                    theirs.append(line);
                }
            },
        }
        i += 1;
    }
    assert(all.take(i as int) =~= all);
    if !stable.as_str().is_empty() {
        let ghost segs0 = segment_views(segments@);
        let ghost t = stable@;
        segments.push(Segment::Stable(stable));
        assert(segment_views(segments@) =~= segs0.push(SegmentView::Stable(t)));
    }
    TextMerge { segments, hunks, manual: None }
}

// ---------------------------------------------------------------------------
// Text with markers
// ---------------------------------------------------------------------------

/// A character `n` times over.
pub open spec fn repeated(c: char, n: nat) -> Seq<char> {
    Seq::new(n, |i: int| c)
}

pub open spec fn ours_line(n: nat) -> Seq<char> {
    repeated(OURS_MARK, n) + " ours\n"@
}

pub open spec fn base_line(n: nat) -> Seq<char> {
    repeated(BASE_MARK, n) + " original\n"@
}

pub open spec fn split_line(n: nat) -> Seq<char> {
    repeated(SPLIT_MARK, n) + "\n"@
}

pub open spec fn theirs_line(n: nat) -> Seq<char> {
    repeated(THEIRS_MARK, n) + " theirs\n"@
}

/// Stable text as it is; a conflict's sides between markers of length `n`.
pub open spec fn segment_text(segment: SegmentView, n: nat) -> Seq<char> {
    match segment {
        SegmentView::Stable(t) => t,
        SegmentView::Conflict { ours, base, theirs } => ours_line(n) + (ours + (base_line(n) + (
        base + (split_line(n) + (theirs + theirs_line(n)))))),
    }
}

/// The segments one behind the other, the conflicts between markers.
pub open spec fn marked_text(segments: Seq<SegmentView>, n: nat) -> Seq<char>
    decreases segments.len(),
{
    if segments.len() == 0 {
        Seq::empty()
    } else {
        marked_text(segments.drop_last(), n) + segment_text(segments.last(), n)
    }
}

/// The line is one of the text, with a line feed behind it or as it is.
pub open spec fn is_line_of(line: Seq<char>, text: Seq<char>) -> bool {
    ||| lines_inclusive(text).contains(line)
    ||| line.len() > 0 && line.last() == '\n' && lines_inclusive(text).contains(line.drop_last())
}

/// Every line of the side is one of the file.
pub open spec fn taken_from(side: Seq<char>, file: Seq<char>) -> bool {
    forall|i: int|
        0 <= i < lines_inclusive(side).len() ==> is_line_of(
            #[trigger] lines_inclusive(side)[i],
            file,
        )
}

/// Text that both sides agree on or that one side changed: every line of it is
/// one of the three files.
pub open spec fn settled_from(
    text: Seq<char>,
    base: Seq<char>,
    ours: Seq<char>,
    theirs: Seq<char>,
) -> bool {
    forall|i: int|
        0 <= i < lines_inclusive(text).len() ==> {
            let line = #[trigger] lines_inclusive(text)[i];
            is_line_of(line, base) || is_line_of(line, ours) || is_line_of(line, theirs)
        }
}

/// The segments follow each other in lines: no stable text is empty or stands
/// behind another one, and every text in front of a marker ends its last line.
pub open spec fn in_lines(segments: Seq<SegmentView>) -> bool {
    forall|i: int|
        0 <= i < segments.len() ==> match #[trigger] segments[i] {
            SegmentView::Stable(t) => t.len() > 0 && (i + 1 < segments.len() ==> ends_line(t)
                && segments[i + 1] is Conflict),
            SegmentView::Conflict { ours, base, theirs } => ends_line(ours) && ends_line(base)
                && ends_line(theirs),
        }
}

/// Each side of each conflict comes from its file, and the stable text from any
/// of them.
pub open spec fn made_of(
    segments: Seq<SegmentView>,
    base: Seq<char>,
    ours: Seq<char>,
    theirs: Seq<char>,
) -> bool {
    forall|i: int|
        0 <= i < segments.len() ==> match #[trigger] segments[i] {
            SegmentView::Stable(t) => settled_from(t, base, ours, theirs),
            SegmentView::Conflict { ours: o, base: b, theirs: t } => taken_from(o, ours)
                && taken_from(b, base) && taken_from(t, theirs),
        }
}

/// The conflicts among the segments, as fresh hunks.
pub open spec fn conflicts_of(segments: Seq<SegmentView>) -> Seq<HunkView>
    decreases segments.len(),
{
    if segments.len() == 0 {
        Seq::empty()
    } else {
        let init = conflicts_of(segments.drop_last());
        match segments.last() {
            SegmentView::Stable(_) => init,
            SegmentView::Conflict { ours, base, theirs } => init.push(
                fresh_hunk(ours, base, theirs),
            ),
        }
    }
}

// ---------------------------------------------------------------------------
// Merging
// ---------------------------------------------------------------------------

pub open spec fn result_text(r: Result<String, String>) -> Result<Seq<char>, Seq<char>> {
    match r {
        Ok(t) => Ok(t@),
        Err(t) => Err(t@),
    }
}

/// What `diffy` makes of an original and two descendants of it: the merged text,
/// or what is settled and what collides, in order.
pub uninterp spec fn diff3(base: Seq<char>, ours: Seq<char>, theirs: Seq<char>) -> Result<
    Seq<char>,
    Seq<SegmentView>,
>;

/// A merge as one text, with markers of length `n` round what collides.
pub open spec fn with_markers(
    merged: Result<Seq<char>, Seq<SegmentView>>,
    n: nat,
) -> Result<Seq<char>, Seq<char>> {
    match merged {
        Ok(t) => Ok(t),
        Err(segments) => Err(marked_text(segments, n)),
    }
}

/// The text shows conflicts between markers of length `n`, in lines that come
/// from the three texts.
pub open spec fn shows(
    text: Seq<char>,
    n: nat,
    segments: Seq<SegmentView>,
    base: Seq<char>,
    ours: Seq<char>,
    theirs: Seq<char>,
) -> bool {
    &&& text == marked_text(segments, n)
    &&& in_lines(segments)
    &&& made_of(segments, base, ours, theirs)
    &&& conflict_count(segments) > 0
}

/// `diffy::MergeOptions::merge` in diff3 style, with markers of the given length
/// placed as `git merge-file` places them. What collides depends on the three
/// texts alone. The text with conflicts holds at least one; its markers stand on
/// lines of their own, and every line between and around them is a line of the
/// file whose side it is. Where one side is the original, the result is the other
/// side. How the lines are matched is not stated.
#[verifier::external_body]
fn merge_texts(base: &str, ours: &str, theirs: &str, marker_len: usize) -> (r: Result<
    String,
    String,
>)
    ensures
        result_text(r) == with_markers(diff3(base@, ours@, theirs@), marker_len as nat),
        r matches Err(t) ==> shows(
            t@,
            marker_len as nat,
            diff3(base@, ours@, theirs@)->Err_0,
            base@,
            ours@,
            theirs@,
        ),
        r matches Ok(t) ==> (theirs@ == base@ ==> t@ == ours@) && (ours@ == base@ ==> t@
            == theirs@),
        r is Err ==> theirs@ != base@ && ours@ != base@,
{
    let mut opts = diffy::MergeOptions::new();
    opts.set_conflict_style(diffy::ConflictStyle::Diff3);
    opts.set_incomplete_hunk_style(diffy::IncompleteHunkStyle::Git);
    opts.set_conflict_marker_length(marker_len);
    opts.merge(base, ours, theirs)
}

/// What segments with conflicts are edited as.
pub open spec fn fresh_merge(segments: Seq<SegmentView>) -> MergeView {
    MergeView { segments, hunks: conflicts_of(segments), manual: None }
}

/// The outcome for a merged text or for one with markers of length `n`.
pub open spec fn is_read(
    merged: Result<Seq<char>, Seq<char>>,
    n: nat,
    outcome: MergeOutcome,
) -> bool {
    match merged {
        Ok(t) => outcome matches MergeOutcome::Clean(text) && text@ == t,
        Err(t) => outcome matches MergeOutcome::Conflicted(m) && m@ == parsed(t, n),
    }
}

/// A clean merge is taken as it is; one with markers becomes conflicts to edit.
pub fn outcome_of(merged: Result<String, String>, marker_len: usize) -> (r: MergeOutcome)
    ensures
        is_read(result_text(merged), marker_len as nat, r),
{
    match merged {
        Ok(text) => MergeOutcome::Clean(text),
        Err(with_markers) => MergeOutcome::Conflicted(
            parse_markers(with_markers.as_str(), marker_len),
        ),
    }
}

/// The outcome of a merge: a merged text, or the conflicts with all their sides.
pub open spec fn is_outcome(
    merged: Result<Seq<char>, Seq<SegmentView>>,
    outcome: MergeOutcome,
) -> bool {
    match merged {
        Ok(t) => outcome matches MergeOutcome::Clean(text) && text@ == t,
        Err(segments) => outcome matches MergeOutcome::Conflicted(m) && m@ == fresh_merge(segments),
    }
}

/// Merge what `ours` and `theirs` made of `base`. A conflicted outcome has at
/// least one hunk to decide, and each hunk holds its three sides in lines of the
/// files, whatever they look like; a last line without a line feed may gain one.
/// What only one side changed is that side's version.
pub fn three_way(base: &str, ours: &str, theirs: &str) -> (r: MergeOutcome)
    ensures
        is_outcome(diff3(base@, ours@, theirs@), r),
        r matches MergeOutcome::Conflicted(m) ==> m@.hunks.len() == conflict_count(m@.segments)
            && m@.hunks.len() > 0 && made_of(m@.segments, base@, ours@, theirs@),
        theirs@ == base@ ==> (r matches MergeOutcome::Clean(t) && t@ == ours@),
        ours@ == base@ ==> (r matches MergeOutcome::Clean(t) && t@ == theirs@),
{
    let marker_len = marker_length(base, ours, theirs);
    let merged = merge_texts(base, ours, theirs, marker_len);
    proof {
        if merged is Err {
            let segments = diff3(base@, ours@, theirs@)->Err_0;
            law_conflicts_keep_all_three_sides(segments, base@, ours@, theirs@);
            lemma_conflicts_counted(segments);
        }
    }
    outcome_of(merged, marker_len)
}

// ---------------------------------------------------------------------------
// Laws
// ---------------------------------------------------------------------------

proof fn lemma_conflicts_counted(segments: Seq<SegmentView>)
    ensures
        conflicts_of(segments).len() == conflict_count(segments),
    decreases segments.len(),
{
    if segments.len() > 0 {
        lemma_conflicts_counted(segments.drop_last());
    }
}

proof fn lemma_all_concat(st: Reading, a: Seq<Seq<char>>, b: Seq<Seq<char>>, n: nat)
    ensures
        st.all(a + b, n) == st.all(a, n).all(b, n),
    decreases b.len(),
{
    if b.len() == 0 {
        assert(a + b =~= a);
    } else {
        lemma_all_concat(st, a, b.drop_last(), n);
        assert((a + b).drop_last() =~= a + b.drop_last());
    }
}

/// A marker is one line, and starts with its character `n` times.
proof fn lemma_marker_line(c: char, n: nat, label: Seq<char>)
    requires
        is_mark(c),
        label.len() > 0,
        label.last() == '\n',
        forall|j: int| 0 <= j < label.len() - 1 ==> label[j] != '\n',
    ensures
        lines_inclusive(repeated(c, n) + label) == seq![repeated(c, n) + label],
        ends_line(repeated(c, n) + label),
        opens(repeated(c, n) + label, c, n),
{
    let line = repeated(c, n) + label;
    assert(line.last() == '\n');
    assert forall|j: int| 0 <= j < line.len() - 1 implies line[j] != '\n' by {
        if j >= n {
            assert(line[j] == label[j - n]);
        }
    }
    lemma_single_line(line);
}

proof fn lemma_marker_lines(n: nat)
    ensures
        lines_inclusive(ours_line(n)) == seq![ours_line(n)],
        lines_inclusive(base_line(n)) == seq![base_line(n)],
        lines_inclusive(split_line(n)) == seq![split_line(n)],
        lines_inclusive(theirs_line(n)) == seq![theirs_line(n)],
        ends_line(ours_line(n)),
        ends_line(base_line(n)),
        ends_line(split_line(n)),
        ends_line(theirs_line(n)),
        theirs_line(n).len() > 0,
        opens(ours_line(n), OURS_MARK, n),
        opens(base_line(n), BASE_MARK, n),
        opens(split_line(n), SPLIT_MARK, n),
        opens(theirs_line(n), THEIRS_MARK, n),
{
    reveal_strlit(" ours\n");
    reveal_strlit(" original\n");
    reveal_strlit("\n");
    reveal_strlit(" theirs\n");
    lemma_marker_line(OURS_MARK, n, " ours\n"@);
    lemma_marker_line(BASE_MARK, n, " original\n"@);
    lemma_marker_line(SPLIT_MARK, n, "\n"@);
    lemma_marker_line(THEIRS_MARK, n, " theirs\n"@);
}

/// No line of the text starts with `n` times that character.
pub open spec fn free_of(text: Seq<char>, c: char, n: nat) -> bool {
    forall|i: int|
        0 <= i < lines_inclusive(text).len() ==> !opens(#[trigger] lines_inclusive(text)[i], c, n)
}

/// Nothing in the segments looks like a marker that ends the part it stands in.
pub open spec fn unmistakable(segments: Seq<SegmentView>, n: nat) -> bool {
    forall|i: int|
        0 <= i < segments.len() ==> match #[trigger] segments[i] {
            SegmentView::Stable(t) => free_of(t, OURS_MARK, n),
            SegmentView::Conflict { ours, base, theirs } => free_of(ours, BASE_MARK, n) && free_of(
                ours,
                SPLIT_MARK,
                n,
            ) && free_of(base, SPLIT_MARK, n) && free_of(theirs, THEIRS_MARK, n),
        }
}

proof fn lemma_line_unlike(line: Seq<char>, file: Seq<char>, c: char, n: nat)
    requires
        is_line_of(line, file),
        is_mark(c),
        n > longest_run(lines_inclusive(file)),
    ensures
        !opens(line, c, n),
{
    let all = lines_inclusive(file);
    let whole = if all.contains(line) {
        line
    } else {
        line.drop_last()
    };
    let i = all.index_of(whole);
    lemma_longest(all, i);
    lemma_run(whole, c, n);
    if opens(line, c, n) {
        assert(line[0] == c);
        assert forall|j: int| 0 <= j < n implies #[trigger] whole[j] == c by {
            assert(line[j] == c);
        }
        if whole != line && n == line.len() {
            assert(line[line.len() - 1] == c);
        }
        assert(opens(whole, c, n));
        assert(whole[0] == c);
    }
}

/// What comes from files is never taken for a marker of the length that is
/// chosen for them.
pub proof fn law_no_line_looks_like_a_marker(
    segments: Seq<SegmentView>,
    base: Seq<char>,
    ours: Seq<char>,
    theirs: Seq<char>,
)
    requires
        made_of(segments, base, ours, theirs),
    ensures
        unmistakable(segments, marker_len(base, ours, theirs)),
{
    let n = marker_len(base, ours, theirs);
    assert forall|i: int| 0 <= i < segments.len() implies match #[trigger] segments[i] {
        SegmentView::Stable(t) => free_of(t, OURS_MARK, n),
        SegmentView::Conflict { ours, base, theirs } => free_of(ours, BASE_MARK, n) && free_of(
            ours,
            SPLIT_MARK,
            n,
        ) && free_of(base, SPLIT_MARK, n) && free_of(theirs, THEIRS_MARK, n),
    } by {
        match segments[i] {
            SegmentView::Stable(t) => {
                assert forall|j: int| 0 <= j < lines_inclusive(t).len() implies !opens(
                    #[trigger] lines_inclusive(t)[j],
                    OURS_MARK,
                    n,
                ) by {
                    let line = lines_inclusive(t)[j];
                    if is_line_of(line, base) {
                        lemma_line_unlike(line, base, OURS_MARK, n);
                    } else if is_line_of(line, ours) {
                        lemma_line_unlike(line, ours, OURS_MARK, n);
                    } else {
                        lemma_line_unlike(line, theirs, OURS_MARK, n);
                    }
                }
            },
            SegmentView::Conflict { ours: o, base: b, theirs: t } => {
                lemma_side_unlike(o, ours, BASE_MARK, n);
                lemma_side_unlike(o, ours, SPLIT_MARK, n);
                lemma_side_unlike(b, base, SPLIT_MARK, n);
                lemma_side_unlike(t, theirs, THEIRS_MARK, n);
            },
        }
    }
}

proof fn lemma_side_unlike(side: Seq<char>, file: Seq<char>, c: char, n: nat)
    requires
        taken_from(side, file),
        is_mark(c),
        n > longest_run(lines_inclusive(file)),
    ensures
        free_of(side, c, n),
{
    assert forall|j: int| 0 <= j < lines_inclusive(side).len() implies !opens(
        #[trigger] lines_inclusive(side)[j],
        c,
        n,
    ) by {
        lemma_line_unlike(lines_inclusive(side)[j], file, c, n);
    }
}

/// No line of the text is a marker that ends the part that is being read.
spec fn goes_on(st: Reading, text: Seq<char>, n: nat) -> bool {
    forall|i: int|
        0 <= i < lines_inclusive(text).len() ==> !st.ends_with(
            #[trigger] lines_inclusive(text)[i],
            n,
        )
}

/// Lines that end no part are read as text.
proof fn lemma_part(st: Reading, text: Seq<char>, n: nat)
    requires
        goes_on(st, text, n),
    ensures
        st.all(lines_inclusive(text), n) == st.text(text),
{
    lemma_lines_part(st, lines_inclusive(text), n);
    lemma_lines_run_on(text);
}

proof fn lemma_lines_part(st: Reading, lines: Seq<Seq<char>>, n: nat)
    requires
        forall|i: int| 0 <= i < lines.len() ==> !st.ends_with(#[trigger] lines[i], n),
    ensures
        st.all(lines, n) == st.text(run_on(lines)),
    decreases lines.len(),
{
    if lines.len() == 0 {
        assert(st.stable + run_on(lines) =~= st.stable);
        assert(st.ours + run_on(lines) =~= st.ours);
        assert(st.base + run_on(lines) =~= st.base);
        assert(st.theirs + run_on(lines) =~= st.theirs);
    } else {
        let init = lines.drop_last();
        assert forall|i: int| 0 <= i < init.len() implies !st.ends_with(#[trigger] init[i], n) by {
            assert(init[i] == lines[i]);
        }
        lemma_lines_part(st, init, n);
        assert(lines.last() == lines[lines.len() - 1]);
        assert(st.stable + run_on(lines) =~= (st.stable + run_on(init)) + lines.last());
        assert(st.ours + run_on(lines) =~= (st.ours + run_on(init)) + lines.last());
        assert(st.base + run_on(lines) =~= (st.base + run_on(init)) + lines.last());
        assert(st.theirs + run_on(lines) =~= (st.theirs + run_on(init)) + lines.last());
    }
}

/// A part and the marker that ends it.
proof fn lemma_part_ended(
    st: Reading,
    text: Seq<char>,
    mark: Seq<char>,
    rest: Seq<char>,
    n: nat,
)
    requires
        goes_on(st, text, n),
        ends_line(text),
        ends_line(mark),
        lines_inclusive(mark) == seq![mark],
        st.ends_with(mark, n),
    ensures
        st.all(lines_inclusive(text + (mark + rest)), n) == st.text(text).line(mark, n).all(
            lines_inclusive(rest),
            n,
        ),
{
    lemma_lines_concat(text, mark + rest);
    lemma_lines_concat(mark, rest);
    lemma_part(st, text, n);
    lemma_all_concat(st, lines_inclusive(text), lines_inclusive(mark + rest), n);
    let now = st.text(text);
    lemma_all_concat(now, seq![mark], lines_inclusive(rest), n);
    reveal_with_fuel(Reading::all, 2);
    assert(seq![mark].drop_last() =~= Seq::empty());
    assert(now.all(seq![mark], n) == now.line(mark, n));
}

/// The state behind segments that have been read.
spec fn behind(segments: Seq<SegmentView>) -> Reading {
    let open = segments.len() > 0 && segments.last() is Stable;
    Reading {
        segments: if open {
            segments.drop_last()
        } else {
            segments
        },
        hunks: conflicts_of(segments),
        stable: if open {
            segments.last()->Stable_0
        } else {
            Seq::empty()
        },
        ..Reading::start()
    }
}

proof fn lemma_init(segments: Seq<SegmentView>, n: nat)
    requires
        segments.len() > 0,
        in_lines(segments),
        unmistakable(segments, n),
    ensures
        in_lines(segments.drop_last()),
        unmistakable(segments.drop_last(), n),
        ends_line(marked_text(segments.drop_last(), n)),
    decreases segments.len(),
{
    let init = segments.drop_last();
    assert forall|i: int| 0 <= i < init.len() implies init[i] == #[trigger] segments[i] by {}
    assert(in_lines(init)) by {
        assert forall|i: int| 0 <= i < init.len() implies match #[trigger] init[i] {
            SegmentView::Stable(t) => t.len() > 0 && (i + 1 < init.len() ==> ends_line(t) && init[i
                + 1] is Conflict),
            SegmentView::Conflict { ours, base, theirs } => ends_line(ours) && ends_line(base)
                && ends_line(theirs),
        } by {
            assert(segments[i] == init[i]);
            if i + 1 < init.len() {
                assert(segments[i + 1] == init[i + 1]);
            }
        }
    }
    assert(unmistakable(init, n)) by {
        assert forall|i: int| 0 <= i < init.len() implies match #[trigger] init[i] {
            SegmentView::Stable(t) => free_of(t, OURS_MARK, n),
            SegmentView::Conflict { ours, base, theirs } => free_of(ours, BASE_MARK, n) && free_of(
                ours,
                SPLIT_MARK,
                n,
            ) && free_of(base, SPLIT_MARK, n) && free_of(theirs, THEIRS_MARK, n),
        } by {
            assert(segments[i] == init[i]);
        }
    }
    if init.len() > 0 {
        lemma_marker_lines(n);
        let last = segments[init.len() - 1];
        assert(init.last() == last);
        let text = segment_text(last, n);
        assert(text.len() > 0 && text.last() == '\n') by {
            match last {
                SegmentView::Stable(t) => {},
                SegmentView::Conflict { ours, base, theirs } => {
                    assert(theirs_line(n).last() == '\n');
                    assert(text.last() == theirs_line(n).last());
                },
            }
        }
        assert(marked_text(init, n).last() == text.last());
    }
}

proof fn lemma_read_segments(segments: Seq<SegmentView>, n: nat)
    requires
        in_lines(segments),
        unmistakable(segments, n),
    ensures
        Reading::start().all(lines_inclusive(marked_text(segments, n)), n) == behind(segments),
    decreases segments.len(),
{
    let start = Reading::start();
    if segments.len() == 0 {
        assert(segments =~= Seq::empty());
    } else {
        let init = segments.drop_last();
        lemma_init(segments, n);
        lemma_read_segments(init, n);
        let front = marked_text(init, n);
        let last = segments[segments.len() - 1];
        let text = segment_text(last, n);
        lemma_lines_concat(front, text);
        lemma_all_concat(start, lines_inclusive(front), lines_inclusive(text), n);
        let st = behind(init);
        let none: Seq<char> = Seq::empty();
        match last {
            SegmentView::Stable(t) => {
                if init.len() > 0 {
                    assert(segments[init.len() - 1] == init.last());
                    assert(segments[init.len() - 1 + 1] == last);
                }
                lemma_part(st, t, n);
                assert(none + t =~= t);
            },
            SegmentView::Conflict { ours, base, theirs } => {
                lemma_marker_lines(n);
                let r3 = split_line(n) + (theirs + theirs_line(n));
                let r2 = base_line(n) + (base + r3);
                assert(goes_on(st, none, n));
                lemma_part_ended(st, none, ours_line(n), ours + r2, n);
                assert(none + (ours_line(n) + (ours + r2)) =~= text);
                assert(st.stable + none =~= st.stable);
                let a1 = st.line(ours_line(n), n);
                assert(a1.segments =~= init) by {
                    if init.len() > 0 && init.last() is Stable {
                        assert(segments[init.len() - 1] == init.last());
                        assert(init =~= init.drop_last().push(init.last()));
                    }
                }
                lemma_part_ended(a1, ours, base_line(n), base + r3, n);
                assert(none + ours =~= ours);
                let a2 = a1.text(ours).line(base_line(n), n);
                lemma_part_ended(a2, base, split_line(n), theirs + theirs_line(n), n);
                assert(none + base =~= base);
                let a3 = a2.text(base).line(split_line(n), n);
                lemma_part_ended(a3, theirs, theirs_line(n), none, n);
                assert(theirs_line(n) + none =~= theirs_line(n));
                assert(none + theirs =~= theirs);
                assert(init.push(last) =~= segments);
            },
        }
    }
}

/// What is settled and what collides comes back from the text with markers as it
/// was: the stable texts, and every conflict with all three sides, set to the
/// pack's version. It does so whatever the lines of the files look like.
pub proof fn law_conflicts_keep_all_three_sides(
    segments: Seq<SegmentView>,
    base: Seq<char>,
    ours: Seq<char>,
    theirs: Seq<char>,
)
    requires
        in_lines(segments),
        made_of(segments, base, ours, theirs),
    ensures
        ({
            let n = marker_len(base, ours, theirs);
            parsed(marked_text(segments, n), n) == fresh_merge(segments)
        }),
{
    law_no_line_looks_like_a_marker(segments, base, ours, theirs);
    lemma_read_segments(segments, marker_len(base, ours, theirs));
    if segments.len() > 0 && segments.last() is Stable {
        assert(segments[segments.len() - 1] is Stable);
        assert(segments =~= segments.drop_last().push(segments.last()));
    }
}

/// A text without the opening marker has nothing to decide and renders as it is.
pub proof fn law_text_without_conflicts_is_unchanged(text: Seq<char>, n: nat)
    requires
        free_of(text, OURS_MARK, n),
    ensures
        parsed(text, n).hunks.len() == 0,
        parsed(text, n).rendered() == text,
{
    lemma_part(Reading::start(), text, n);
    assert(Seq::<char>::empty() + text =~= text);
    let m = parsed(text, n);
    reveal_with_fuel(composed, 2);
    if text.len() > 0 {
        assert(m.segments.drop_last() =~= Seq::empty());
        assert(m.segments.last() == SegmentView::Stable(text));
    } else {
        assert(text =~= Seq::empty());
    }
}

proof fn lemma_conflicts_flushed(segments: Seq<SegmentView>, stable: Seq<char>)
    ensures
        conflicts_of(flushed(segments, stable)) == conflicts_of(segments),
{
    if stable.len() > 0 {
        assert(flushed(segments, stable).drop_last() =~= segments);
    }
}

proof fn lemma_reading_matches(st: Reading, lines: Seq<Seq<char>>, n: nat)
    requires
        conflicts_of(st.segments) == st.hunks,
    ensures
        conflicts_of(st.all(lines, n).segments) == st.all(lines, n).hunks,
    decreases lines.len(),
{
    if lines.len() > 0 {
        lemma_reading_matches(st, lines.drop_last(), n);
        let now = st.all(lines.drop_last(), n);
        lemma_conflicts_flushed(now.segments, now.stable);
        let c = SegmentView::Conflict { ours: now.ours, base: now.base, theirs: now.theirs };
        assert(now.segments.push(c).drop_last() =~= now.segments);
    }
}

/// Every conflict among the segments has its hunk, in the same order and with
/// the same three sides, set to the pack's version; nothing is hand-edited yet.
pub proof fn law_hunks_match_the_conflicts(text: Seq<char>, n: nat)
    ensures
        conflicts_of(parsed(text, n).segments) == parsed(text, n).hunks,
        parsed(text, n).manual is None,
{
    let st = Reading::start().all(lines_inclusive(text), n);
    lemma_reading_matches(Reading::start(), lines_inclusive(text), n);
    lemma_conflicts_flushed(st.segments, st.stable);
}

/// The positions of the conflicts among the segments, in order; each has a hunk.
pub open spec fn conflicts_at(segments: Seq<SegmentView>, at: Seq<int>) -> bool {
    &&& forall|k: int, l: int| 0 <= k < l < at.len() ==> #[trigger] at[k] < #[trigger] at[l]
    &&& forall|k: int|
        0 <= k < at.len() ==> 0 <= #[trigger] at[k] < segments.len() && segments[at[k]] is Conflict
    &&& forall|i: int|
        0 <= i < segments.len() && #[trigger] segments[i] is Conflict ==> at.contains(i)
}

/// What a hunk puts into the file, in its own words: one side as it is, whether or
/// not it is empty; both sides with a line feed between them only where two lines
/// would run into one; or the text that was typed in.
pub open spec fn puts(h: HunkView, text: Seq<char>) -> bool {
    &&& h.choice == Choice::Ours ==> text == h.ours
    &&& h.choice == Choice::Theirs ==> text == h.theirs
    &&& h.choice == Choice::Custom ==> text == h.custom
    &&& h.choice == Choice::Both ==> {
        let apart = h.ours.len() > 0 && h.ours.last() != '\n' && h.theirs.len() > 0;
        &&& apart ==> text == h.ours + seq!['\n'] + h.theirs
        &&& !apart ==> text == h.ours + h.theirs
    }
    &&& h.choice == Choice::BothReversed ==> {
        let apart = h.theirs.len() > 0 && h.theirs.last() != '\n' && h.ours.len() > 0;
        &&& apart ==> text == h.theirs + seq!['\n'] + h.ours
        &&& !apart ==> text == h.theirs + h.ours
    }
}

/// A hunk resolves to what its choice says.
pub proof fn law_a_choice_puts_its_own_text(h: HunkView, text: Seq<char>)
    ensures
        puts(h, text) <==> text == h.resolved(),
        h.choice == Choice::Ours ==> h.resolved() == h.ours,
        h.choice == Choice::Theirs ==> h.resolved() == h.theirs,
        h.choice == Choice::Custom ==> h.resolved() == h.custom,
{
    let o = h.ours;
    let t = h.theirs;
    assert(o.len() == 0 ==> o + t =~= t && t + o =~= t);
    assert(t.len() == 0 ==> o + t =~= o && t + o =~= o);
    assert(o.push('\n') + t =~= o + seq!['\n'] + t);
    assert(t.push('\n') + o =~= t + seq!['\n'] + o);
}

proof fn lemma_lines_end(texts: Seq<Seq<char>>)
    requires
        forall|i: int|
            0 <= i < texts.len() ==> (#[trigger] texts[i]).len() == 0 || texts[i].last() == '\n',
    ensures
        texts.flatten().len() == 0 || texts.flatten().last() == '\n',
    decreases texts.len(),
{
    if texts.len() > 0 {
        let init = texts.drop_last();
        assert forall|i: int| 0 <= i < init.len() implies (#[trigger] init[i]).len() == 0
            || init[i].last() == '\n' by {
            assert(init[i] == texts[i]);
        }
        lemma_lines_end(init);
        init.lemma_flatten_push(texts.last());
        assert(texts =~= init.push(texts.last()));
        assert(texts.last() == texts[texts.len() - 1]);
    }
}

proof fn lemma_in_order(
    segments: Seq<SegmentView>,
    hunks: Seq<HunkView>,
    at: Seq<int>,
    texts: Seq<Seq<char>>,
)
    requires
        conflicts_at(segments, at),
        at.len() <= hunks.len(),
        texts.len() == segments.len(),
        forall|i: int|
            #![trigger segments[i]]
            0 <= i < segments.len() ==> (segments[i] matches SegmentView::Stable(t) ==> texts[i]
                == t),
        forall|k: int| 0 <= k < at.len() ==> texts[#[trigger] at[k]] == hunks[k].resolved(),
        forall|i: int|
            0 <= i < texts.len() - 1 ==> (#[trigger] texts[i]).len() == 0 || texts[i].last()
                == '\n',
    ensures
        composed(segments, hunks) == texts.flatten(),
        conflict_count(segments) == at.len(),
    decreases segments.len(),
{
    if segments.len() > 0 {
        let n = segments.len() - 1;
        let init = segments.drop_last();
        let front = texts.drop_last();
        assert(texts =~= front.push(texts.last()));
        front.lemma_flatten_push(texts.last());
        assert forall|i: int| 0 <= i < front.len() implies (#[trigger] front[i]).len() == 0
            || front[i].last() == '\n' by {
            assert(front[i] == texts[i]);
        }
        lemma_lines_end(front);
        assert(segments[n] == segments.last());
        let before = if segments.last() is Conflict {
            at.drop_last()
        } else {
            at
        };
        if segments.last() is Conflict {
            assert(at.contains(n));
            let k = at.index_of(n);
            if k < at.len() - 1 {
                assert(at[k] < at[at.len() - 1]);
            }
            assert(at[at.len() - 1] == n);
        }
        assert forall|k: int| 0 <= k < before.len() implies 0 <= #[trigger] before[k] < init.len()
            && init[before[k]] is Conflict by {
            assert(before[k] == at[k]);
            if segments.last() is Conflict {
                assert(at[k] < at[at.len() - 1]);
            }
            assert(at[k] != n);
        }
        assert forall|k: int, l: int| 0 <= k < l < before.len() implies #[trigger] before[k]
            < #[trigger] before[l] by {
            assert(at[k] < at[l]);
        }
        assert forall|i: int| 0 <= i < init.len() && #[trigger] init[i] is Conflict implies before.contains(
            i,
        ) by {
            assert(init[i] == segments[i]);
            let k = at.index_of(i);
            assert(before[k] == i);
        }
        assert forall|i: int|
            #![trigger init[i]]
            0 <= i < init.len() implies (init[i] matches SegmentView::Stable(t) ==> front[i]
            == t) by {
            assert(init[i] == segments[i]);
        }
        assert forall|k: int| 0 <= k < before.len() implies front[#[trigger] before[k]]
            == hunks[k].resolved() by {
            assert(before[k] == at[k]);
            assert(texts[at[k]] == hunks[k].resolved());
        }
        lemma_in_order(init, hunks, before, front);
        if segments.last() is Conflict {
            let k = at.len() - 1;
            assert(texts[at[k]] == hunks[k].resolved());
        }
    } else {
        if at.len() > 0 {
            assert(0 <= at[0] < segments.len());
        }
        assert(texts =~= Seq::empty());
    }
}

/// The file is its parts one behind the other, nothing between them and nothing left
/// out: the stable texts as they are, and for each conflict what its hunk puts there.
/// With every hunk set to one side it is the stable texts and that side of every
/// conflict; an empty side adds nothing.
pub proof fn law_the_file_is_its_parts_in_order(
    m: MergeView,
    at: Seq<int>,
    texts: Seq<Seq<char>>,
)
    requires
        m.manual is None,
        conflicts_at(m.segments, at),
        at.len() == m.hunks.len(),
        texts.len() == m.segments.len(),
        forall|i: int|
            #![trigger m.segments[i]]
            0 <= i < m.segments.len() ==> (m.segments[i] matches SegmentView::Stable(t) ==> texts[i]
                == t),
        forall|k: int| 0 <= k < at.len() ==> puts(m.hunks[k], texts[#[trigger] at[k]]),
        forall|i: int|
            0 <= i < texts.len() - 1 ==> (#[trigger] texts[i]).len() == 0 || texts[i].last()
                == '\n',
    ensures
        m.rendered() == texts.flatten(),
{
    assert forall|k: int| 0 <= k < at.len() implies texts[#[trigger] at[k]]
        == m.hunks[k].resolved() by {
        law_a_choice_puts_its_own_text(m.hunks[k], texts[at[k]]);
    }
    lemma_in_order(m.segments, m.hunks, at, texts);
}

/// One side of the conflicts throughout: with every hunk set to yours the file is the
/// stable texts and your side of every conflict one behind the other, with every hunk
/// set to the pack's it is those and the pack's side.
pub proof fn law_one_side_throughout(
    m: MergeView,
    at: Seq<int>,
    yours: Seq<Seq<char>>,
    packs: Seq<Seq<char>>,
)
    requires
        m.manual is None,
        conflicts_at(m.segments, at),
        at.len() == m.hunks.len(),
        yours.len() == m.segments.len(),
        packs.len() == m.segments.len(),
        forall|i: int|
            #![trigger m.segments[i]]
            0 <= i < m.segments.len() ==> match m.segments[i] {
                SegmentView::Stable(t) => yours[i] == t && packs[i] == t,
                SegmentView::Conflict { ours, theirs, .. } => yours[i] == ours && packs[i]
                    == theirs,
            },
        forall|k: int|
            #![trigger at[k]]
            0 <= k < at.len() ==> (m.segments[at[k]] matches SegmentView::Conflict {
                ours,
                theirs,
                ..
            } ==> m.hunks[k].ours == ours && m.hunks[k].theirs == theirs),
        forall|i: int|
            0 <= i < yours.len() - 1 ==> (#[trigger] yours[i]).len() == 0 || yours[i].last()
                == '\n',
        forall|i: int|
            0 <= i < packs.len() - 1 ==> (#[trigger] packs[i]).len() == 0 || packs[i].last()
                == '\n',
    ensures
        (forall|k: int| 0 <= k < m.hunks.len() ==> (#[trigger] m.hunks[k]).choice == Choice::Ours)
            ==> m.rendered() == yours.flatten(),
        (forall|k: int| 0 <= k < m.hunks.len() ==> (#[trigger] m.hunks[k]).choice == Choice::Theirs)
            ==> m.rendered() == packs.flatten(),
{
    if forall|k: int| 0 <= k < m.hunks.len() ==> (#[trigger] m.hunks[k]).choice == Choice::Ours {
        assert forall|k: int| 0 <= k < at.len() implies puts(m.hunks[k], yours[#[trigger] at[k]]) by {
            assert(m.segments[at[k]] is Conflict);
            assert(m.hunks[k].choice == Choice::Ours);
        }
        law_the_file_is_its_parts_in_order(m, at, yours);
    }
    if forall|k: int| 0 <= k < m.hunks.len() ==> (#[trigger] m.hunks[k]).choice == Choice::Theirs {
        assert forall|k: int| 0 <= k < at.len() implies puts(m.hunks[k], packs[#[trigger] at[k]]) by {
            assert(m.segments[at[k]] is Conflict);
            assert(m.hunks[k].choice == Choice::Theirs);
        }
        law_the_file_is_its_parts_in_order(m, at, packs);
    }
}

/// Behind a text that does not end its line, what a hunk puts there starts a new
/// line, and an empty text adds nothing; the text behind a hunk follows it as it is.
pub proof fn law_a_hunk_starts_a_line(
    before: Seq<char>,
    c: SegmentView,
    h: HunkView,
    text: Seq<char>,
    after: Seq<char>,
)
    requires
        c is Conflict,
        puts(h, text),
        before.len() > 0,
        before.last() != '\n',
    ensures
        ({
            let m = MergeView {
                segments: seq![SegmentView::Stable(before), c, SegmentView::Stable(after)],
                hunks: seq![h],
                manual: None,
            };
            &&& text.len() > 0 ==> m.rendered() == before + seq!['\n'] + text + after
            &&& text.len() == 0 ==> m.rendered() == before + after
        }),
{
    law_a_choice_puts_its_own_text(h, text);
    let s3 = seq![SegmentView::Stable(before), c, SegmentView::Stable(after)];
    let s2 = seq![SegmentView::Stable(before), c];
    let s1 = seq![SegmentView::Stable(before)];
    assert(s3.drop_last() =~= s2 && s2.drop_last() =~= s1 && s1.drop_last() =~= Seq::empty());
    reveal_with_fuel(composed, 4);
    reveal_with_fuel(conflict_count, 3);
    assert(composed(s1, seq![h]) =~= before);
    assert(conflict_count(s1) == 0);
    if text.len() > 0 {
        assert(composed(s2, seq![h]) =~= before + seq!['\n'] + text);
    } else {
        assert(composed(s2, seq![h]) =~= before);
    }
}

/// A file that was edited by hand is what was typed, whatever the hunks say.
pub proof fn law_what_was_typed_wins(m: MergeView, typed: Seq<char>)
    requires
        m.manual == Some(typed),
    ensures
        m.rendered() == typed,
{
}

proof fn lemma_conflicts_of(segments: Seq<SegmentView>, at: Seq<int>)
    requires
        conflicts_at(segments, at),
    ensures
        conflicts_of(segments).len() == at.len(),
        forall|k: int|
            #![trigger at[k]]
            0 <= k < at.len() ==> (segments[at[k]] matches SegmentView::Conflict {
                ours,
                base,
                theirs,
            } ==> conflicts_of(segments)[k] == fresh_hunk(ours, base, theirs)),
    decreases segments.len(),
{
    if segments.len() > 0 {
        let n = segments.len() - 1;
        let init = segments.drop_last();
        assert(segments[n] == segments.last());
        let before = if segments.last() is Conflict {
            at.drop_last()
        } else {
            at
        };
        if segments.last() is Conflict {
            assert(at.contains(n));
            let k = at.index_of(n);
            if k < at.len() - 1 {
                assert(at[k] < at[at.len() - 1]);
            }
            assert(at[at.len() - 1] == n);
        }
        assert forall|k: int| 0 <= k < before.len() implies 0 <= #[trigger] before[k] < init.len()
            && init[before[k]] is Conflict by {
            assert(before[k] == at[k]);
            if segments.last() is Conflict {
                assert(at[k] < at[at.len() - 1]);
            }
            assert(at[k] != n);
        }
        assert forall|k: int, l: int| 0 <= k < l < before.len() implies #[trigger] before[k]
            < #[trigger] before[l] by {
            assert(at[k] < at[l]);
        }
        assert forall|i: int| 0 <= i < init.len() && #[trigger] init[i] is Conflict implies before.contains(
            i,
        ) by {
            assert(init[i] == segments[i]);
            let k = at.index_of(i);
            assert(before[k] == i);
        }
        lemma_conflicts_of(init, before);
        assert forall|k: int|
            #![trigger at[k]]
            0 <= k < at.len() implies (segments[at[k]] matches SegmentView::Conflict {
            ours,
            base,
            theirs,
        } ==> conflicts_of(segments)[k] == fresh_hunk(ours, base, theirs)) by {
            if k < before.len() {
                assert(before[k] == at[k]);
                assert(init[before[k]] == segments[at[k]]);
            }
        }
    } else {
        if at.len() > 0 {
            assert(0 <= at[0] < segments.len());
        }
    }
}

/// A merge that has just been made takes the pack's side of every conflict: each
/// conflict has one hunk with its three sides, set to the pack's, and nothing was
/// typed.
pub proof fn law_a_fresh_merge_takes_the_pack(segments: Seq<SegmentView>, at: Seq<int>)
    requires
        conflicts_at(segments, at),
    ensures
        fresh_merge(segments).segments == segments,
        fresh_merge(segments).manual is None,
        fresh_merge(segments).hunks.len() == at.len(),
        forall|k: int|
            #![trigger at[k]]
            0 <= k < at.len() ==> {
                let h = fresh_merge(segments).hunks[k];
                &&& h.choice == Choice::Theirs
                &&& h.custom.len() == 0
                &&& (segments[at[k]] matches SegmentView::Conflict { ours, base, theirs } ==> h.ours
                    == ours && h.base == base && h.theirs == theirs)
            },
{
    lemma_conflicts_of(segments, at);
}

pub proof fn lemma_conflict_count(segments: Seq<SegmentView>, at: Seq<int>)
    requires
        conflicts_at(segments, at),
    ensures
        conflict_count(segments) == at.len(),
{
    lemma_conflicts_of(segments, at);
    lemma_conflicts_counted(segments);
}

/// A line that starts with `n` of a character.
pub open spec fn starts(line: Seq<char>, c: char, n: nat) -> bool {
    Seq::new(n, |i: int| c).is_prefix_of(line)
}

/// A text in whole lines, none of which starts with `n` of the character.
pub open spec fn plain(text: Seq<char>, c: char, n: nat) -> bool {
    &&& text.len() > 0 ==> text.last() == '\n'
    &&& forall|i: int|
        0 <= i < lines_inclusive(text).len() ==> !starts(#[trigger] lines_inclusive(text)[i], c, n)
}

/// A line that starts with `n` of the character.
pub open spec fn marker(line: Seq<char>, c: char, n: nat) -> bool {
    &&& line.len() > 0 && line.last() == '\n'
    &&& forall|j: int| 0 <= j < line.len() - 1 ==> #[trigger] line[j] != '\n'
    &&& starts(line, c, n)
}

proof fn lemma_starts(line: Seq<char>, c: char, n: nat)
    ensures
        starts(line, c, n) <==> opens(line, c, n),
{
    let run = Seq::new(n, |i: int| c);
    if starts(line, c, n) {
        assert forall|i: int| 0 <= i < n implies #[trigger] line[i] == c by {
            assert(line.subrange(0, n as int)[i] == run[i]);
        }
    }
    if opens(line, c, n) {
        assert(line.subrange(0, n as int) =~= run);
    }
}

proof fn lemma_plain(text: Seq<char>, c: char, n: nat)
    requires
        plain(text, c, n),
    ensures
        ends_line(text),
        free_of(text, c, n),
{
    assert forall|i: int| 0 <= i < lines_inclusive(text).len() implies !opens(
        #[trigger] lines_inclusive(text)[i],
        c,
        n,
    ) by {
        lemma_starts(lines_inclusive(text)[i], c, n);
    }
}

proof fn lemma_marker(line: Seq<char>, c: char, n: nat)
    requires
        marker(line, c, n),
    ensures
        lines_inclusive(line) == seq![line],
        ends_line(line),
        opens(line, c, n),
{
    lemma_single_line(line);
    lemma_starts(line, c, n);
}

/// How a conflict is read. Its sides stand between lines that start with `<`, `|`, `=`
/// and `>`, whatever else those lines say; the original may be missing. What stands in
/// front of it and behind it is stable text.
#[verifier::rlimit(40)]
pub proof fn law_how_a_conflict_is_read(
    front: Seq<char>,
    m1: Seq<char>,
    ours: Seq<char>,
    m2: Seq<char>,
    base: Seq<char>,
    m3: Seq<char>,
    theirs: Seq<char>,
    m4: Seq<char>,
    back: Seq<char>,
    n: nat,
)
    requires
        n > 0,
        plain(front, '<', n),
        marker(m1, '<', n),
        plain(ours, '|', n),
        plain(ours, '=', n),
        marker(m2, '|', n),
        plain(base, '=', n),
        marker(m3, '=', n),
        plain(theirs, '>', n),
        marker(m4, '>', n),
        plain(back, '<', n),
    ensures
        ({
            let whole = parsed(
                front + (m1 + (ours + (m2 + (base + (m3 + (theirs + (m4 + back))))))),
                n,
            );
            let short = parsed(front + (m1 + (ours + (m3 + (theirs + (m4 + back))))), n);
            let none: Seq<SegmentView> = Seq::empty();
            let head = if front.len() > 0 {
                seq![SegmentView::Stable(front)]
            } else {
                none
            };
            let tail = if back.len() > 0 {
                seq![SegmentView::Stable(back)]
            } else {
                none
            };
            &&& whole.segments == head + seq![SegmentView::Conflict { ours, base, theirs }] + tail
            &&& short.segments == head + seq![
                SegmentView::Conflict { ours, base: Seq::empty(), theirs },
            ] + tail
            &&& whole.hunks.len() == 1 && short.hunks.len() == 1
            &&& whole.hunks[0].ours == ours && whole.hunks[0].base == base && whole.hunks[0].theirs
                == theirs && whole.hunks[0].choice == Choice::Theirs
            &&& short.hunks[0].ours == ours && short.hunks[0].base.len() == 0
                && short.hunks[0].theirs == theirs && short.hunks[0].choice == Choice::Theirs
            &&& whole.manual is None && short.manual is None
        }),
{
    lemma_plain(front, '<', n);
    lemma_plain(ours, '|', n);
    lemma_plain(ours, '=', n);
    lemma_plain(base, '=', n);
    lemma_plain(theirs, '>', n);
    lemma_plain(back, '<', n);
    lemma_marker(m1, '<', n);
    lemma_marker(m2, '|', n);
    lemma_marker(m3, '=', n);
    lemma_marker(m4, '>', n);
    let none: Seq<char> = Seq::empty();
    assert(none + front =~= front && none + ours =~= ours && none + base =~= base && none + theirs
        =~= theirs && none + back =~= back);
    let s0 = Reading::start();
    let end = m4 + back;
    let r3 = theirs + end;
    let r2 = base + (m3 + r3);
    let r1 = ours + (m2 + r2);
    let q1 = ours + (m3 + r3);
    lemma_part_ended(s0, front, m1, r1, n);
    lemma_part_ended(s0, front, m1, q1, n);
    let s1 = s0.text(front).line(m1, n);
    assert(s1.side == Side::Ours);
    assert(!opens(m3, '|', n)) by {
        assert(m3[0] == '=');
    }
    lemma_part_ended(s1, ours, m2, r2, n);
    lemma_part_ended(s1, ours, m3, r3, n);
    let s2 = s1.text(ours).line(m2, n);
    let t3 = s1.text(ours).line(m3, n);
    lemma_part_ended(s2, base, m3, r3, n);
    let s3 = s2.text(base).line(m3, n);
    lemma_part_ended(s3, theirs, m4, back, n);
    lemma_part_ended(t3, theirs, m4, back, n);
    let s4 = s3.text(theirs).line(m4, n);
    let t4 = t3.text(theirs).line(m4, n);
    assert(s4.side == Side::Stable && t4.side == Side::Stable);
    lemma_part(s4, back, n);
    lemma_part(t4, back, n);
    let nothing: Seq<SegmentView> = Seq::empty();
    let head = if front.len() > 0 {
        seq![SegmentView::Stable(front)]
    } else {
        nothing
    };
    let tail = if back.len() > 0 {
        seq![SegmentView::Stable(back)]
    } else {
        nothing
    };
    let whole = parsed(front + (m1 + (ours + (m2 + (base + (m3 + (theirs + (m4 + back))))))), n);
    let short = parsed(front + (m1 + (ours + (m3 + (theirs + (m4 + back))))), n);
    assert(whole == s4.text(back).done());
    assert(short == t4.text(back).done());
    assert(whole.segments =~= head + seq![SegmentView::Conflict { ours, base, theirs }] + tail);
    assert(short.segments =~= head + seq![SegmentView::Conflict { ours, base: none, theirs }]
        + tail);
}

/// A conflict that never ends is left out: what stands in front of it is all that is
/// read.
pub proof fn law_an_open_conflict_is_left_out(
    front: Seq<char>,
    m1: Seq<char>,
    ours: Seq<char>,
    n: nat,
)
    requires
        n > 0,
        plain(front, '<', n),
        marker(m1, '<', n),
        plain(ours, '|', n),
        plain(ours, '=', n),
    ensures
        parsed(front + (m1 + ours), n).hunks.len() == 0,
        front.len() > 0 ==> parsed(front + (m1 + ours), n).segments == seq![
            SegmentView::Stable(front),
        ],
        front.len() == 0 ==> parsed(front + (m1 + ours), n).segments.len() == 0,
{
    lemma_plain(front, '<', n);
    lemma_plain(ours, '|', n);
    lemma_plain(ours, '=', n);
    lemma_marker(m1, '<', n);
    let none: Seq<char> = Seq::empty();
    assert(none + front =~= front);
    let s0 = Reading::start();
    lemma_part_ended(s0, front, m1, ours, n);
    let s1 = s0.text(front).line(m1, n);
    lemma_part(s1, ours, n);
    let nothing: Seq<SegmentView> = Seq::empty();
    assert(nothing.push(SegmentView::Stable(front)) =~= seq![SegmentView::Stable(front)]);
}

/// What a hunk gives is what its choice says, asked of the hunk itself.
pub proof fn law_what_a_hunk_gives(h: Hunk, r: String)
    requires
        call_ensures(Hunk::resolved, (&h,), r),
    ensures
        h.choice == Choice::Ours ==> r@ == h.ours@,
        h.choice == Choice::Theirs ==> r@ == h.theirs@,
        h.choice == Choice::Custom ==> r@ == h.custom@,
        puts(h@, r@),
{
    law_a_choice_puts_its_own_text(h@, r@);
}

/// A file that was typed is rendered as it was typed.
pub proof fn law_what_was_typed_is_rendered(m: TextMerge, r: String)
    requires
        call_ensures(TextMerge::render, (&m,), r),
        m.manual is Some,
    ensures
        r@ == m.manual->0@,
{
}

/// The markers are seven characters long, or longer where a line of one of the texts
/// starts with seven or more of a character that markers are made of; they are then just
/// one longer than the longest such start.
pub proof fn law_markers_are_no_longer_than_needed(base: &str, ours: &str, theirs: &str, r: usize)
    requires
        call_ensures(marker_length, (base, ours, theirs), r),
    ensures
        r >= 7,
        forall|line: Seq<char>, c: char|
            (c == '<' || c == '|' || c == '=' || c == '>') && (lines_inclusive(base@).contains(line)
                || lines_inclusive(ours@).contains(line) || lines_inclusive(theirs@).contains(line))
                ==> !#[trigger] starts(line, c, r as nat),
        r > 7 ==> exists|line: Seq<char>, c: char|
            (c == '<' || c == '|' || c == '=' || c == '>') && (lines_inclusive(base@).contains(line)
                || lines_inclusive(ours@).contains(line) || lines_inclusive(theirs@).contains(line))
                && #[trigger] starts(line, c, (r - 1) as nat),
{
    let n = r as nat;
    let all = seq![lines_inclusive(base@), lines_inclusive(ours@), lines_inclusive(theirs@)];
    assert forall|line: Seq<char>, c: char|
        (c == '<' || c == '|' || c == '=' || c == '>') && (lines_inclusive(base@).contains(line)
            || lines_inclusive(ours@).contains(line) || lines_inclusive(theirs@).contains(
            line,
        )) implies !#[trigger] starts(line, c, n) by {
        lemma_run(line, c, n);
        if starts(line, c, n) {
            lemma_starts(line, c, n);
            assert(line[0] == c);
            if lines_inclusive(base@).contains(line) {
                lemma_longest(lines_inclusive(base@), lines_inclusive(base@).index_of(line));
            } else if lines_inclusive(ours@).contains(line) {
                lemma_longest(lines_inclusive(ours@), lines_inclusive(ours@).index_of(line));
            } else {
                lemma_longest(lines_inclusive(theirs@), lines_inclusive(theirs@).index_of(line));
            }
        }
    }
    if r > 7 {
        let a = longest_run(all[0]);
        let b = longest_run(all[1]);
        let c = longest_run(all[2]);
        let k: int = if a >= b && a >= c {
            0
        } else if b >= c {
            1
        } else {
            2
        };
        assert(longest_run(all[k]) == n - 1);
        let i = lemma_a_longest(all[k]);
        let line = all[k][i];
        assert(all[k].contains(line));
        lemma_run(line, line[0], (n - 1) as nat);
        lemma_starts(line, line[0], (n - 1) as nat);
        assert(starts(line, line[0], (n - 1) as nat));
    }
}

proof fn lemma_a_longest(lines: Seq<Seq<char>>) -> (i: int)
    requires
        longest_run(lines) > 0,
    ensures
        0 <= i < lines.len(),
        mark_run(lines[i]) == longest_run(lines),
    decreases lines.len(),
{
    if mark_run(lines.last()) > longest_run(lines.drop_last()) {
        lines.len() - 1
    } else {
        lemma_a_longest(lines.drop_last())
    }
}

} // verus!
