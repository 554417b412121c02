//! The conflict editor: three-way hunks with per-hunk resolution, plus a raw
//! whole-file escape hatch.
use vstd::prelude::*;
use vstd::string::*;

use crate::merge::{hunk_views, optional_text, Choice, HunkView, MergeView, Segment, SegmentView};
use crate::plan::{ConflictFile, ConflictView};
use crate::text::{
    bare_lines, chars_of, decimal, decimal_of, join, joined, lines, string_of, texts, trim, trimmed,
};

verus! {

/// How much untouched text to show around each conflict before folding it.
pub const CONTEXT_LINES: usize = 3;

pub const FOLD_THRESHOLD: usize = 8;

// ---------------------------------------------------------------------------
// Choosing
// ---------------------------------------------------------------------------

/// The merge with the same choice everywhere.
pub open spec fn all_chosen(m: MergeView, choice: Choice) -> MergeView {
    MergeView { hunks: m.hunks.map_values(|h: HunkView| (HunkView { choice, ..h })), ..m }
}

/// The file once every conflict of it is decided the same way.
pub open spec fn one_side(c: ConflictView, choice: Choice) -> ConflictView {
    ConflictView { merge: all_chosen(c.merge, choice), reviewed: true, ..c }
}

/// A hunk with a choice made. Choosing to edit starts from what the hunk comes to
/// so far, unless there is an edited text already.
pub open spec fn hunk_chosen(h: HunkView, choice: Choice) -> HunkView {
    HunkView {
        choice,
        custom: if choice == Choice::Custom && h.custom.len() == 0 {
            h.resolved()
        } else {
            h.custom
        },
        ..h
    }
}

/// The file with a choice made for one of its hunks.
pub open spec fn chosen(c: ConflictView, at: int, choice: Choice) -> ConflictView {
    ConflictView {
        merge: MergeView {
            hunks: c.merge.hunks.update(at, hunk_chosen(c.merge.hunks[at], choice)),
            ..c.merge
        },
        reviewed: true,
        ..c
    }
}

/// The file in whole-file mode, which starts from what it comes to so far.
pub open spec fn opened_whole(c: ConflictView) -> ConflictView {
    ConflictView {
        merge: MergeView { manual: Some(c.merge.rendered()), ..c.merge },
        reviewed: true,
        ..c
    }
}

/// The file back in hunk mode.
pub open spec fn back_to_hunks(c: ConflictView) -> ConflictView {
    ConflictView { merge: MergeView { manual: None, ..c.merge }, ..c }
}

impl ConflictFile {
    /// Decide every conflict of the file the same way.
    pub fn take_all(&mut self, choice: Choice)
        ensures
            final(self)@ == one_side(old(self)@, choice),
    {
        let ghost prev = self@;
        let ghost start = self.merge.hunks@;
        let mut i: usize = 0;
        while i < self.merge.hunks.len()
            invariant
                i <= self.merge.hunks.len(),
                self.merge.hunks.len() == start.len(),
                self.rel@ == prev.rel,
                self.no_base == prev.no_base,
                self.merge@.segments == prev.merge.segments,
                self.merge@.manual == prev.merge.manual,
                prev.merge.hunks == hunk_views(start),
                forall|j: int|
                    0 <= j < i ==> #[trigger] self.merge.hunks@[j]@ == (HunkView {
                        choice,
                        ..start[j]@
                    }),
                forall|j: int|
                    i <= j < start.len() ==> #[trigger] self.merge.hunks@[j] == start[j],
            decreases self.merge.hunks.len() - i,
        {
            self.merge.hunks[i].choice = choice;
            i += 1;
        }
        self.reviewed = true;
        assert(self@.merge.hunks =~= all_chosen(prev.merge, choice).hunks);
    }

    /// Decide one hunk.
    pub fn choose_hunk(&mut self, at: usize, choice: Choice)
        requires
            at < old(self).merge.hunks.len(),
        ensures
            final(self)@ == chosen(old(self)@, at as int, choice),
    {
        let ghost prev = self@;
        assert(prev.merge.hunks[at as int] == self.merge.hunks@[at as int]@);
        if choice == Choice::Custom && chars_of(self.merge.hunks[at].custom.as_str()).len() == 0 {
            let text = self.merge.hunks[at].resolved();
            self.merge.hunks[at].custom = text;
        }
        self.merge.hunks[at].choice = choice;
        self.reviewed = true;
        assert(self@.merge.hunks =~= chosen(prev, at as int, choice).merge.hunks);
    }

    /// Edit the whole file by hand.
    pub fn edit_whole(&mut self)
        ensures
            final(self)@ == opened_whole(old(self)@),
    {
        let text = self.merge.render();
        self.merge.manual = Some(text);
        self.reviewed = true;
    }

    /// Leave the whole-file mode.
    pub fn edit_hunks(&mut self)
        ensures
            final(self)@ == back_to_hunks(old(self)@),
    {
        self.merge.manual = None;
    }

    /// What the file is about.
    pub fn subtitle(&self, pack_label: &str) -> (r: String)
        ensures
            r@ == (if self.no_base {
                "The original version of this file could not be recovered — pick one side. ("@
                    + pack_label@ + " vs yours)"@
            } else {
                decimal(self.merge.hunks.len() as nat) + if self.merge.hunks.len() == 1 {
                    " conflict — everything else merged automatically."@
                } else {
                    " conflicts — everything else merged automatically."@
                }
            }),
    {
        if self.no_base {
            let mut out =
                "The original version of this file could not be recovered — pick one side. (".to_owned();
            out.append(pack_label);
            out.append(" vs yours)");
            out
        } else {
            let n = self.merge.hunks.len();
            let mut out = decimal_of(n as u64);
            if n == 1 {
                out.append(" conflict — everything else merged automatically.");
            } else {
                out.append(" conflicts — everything else merged automatically.");
            }
            out
        }
    }
}

/// Whether a choice takes your side into the result.
pub fn takes_ours(choice: Choice) -> (r: bool)
    ensures
        r == (choice == Choice::Ours || choice == Choice::Both || choice == Choice::BothReversed),
{
    choice == Choice::Ours || choice == Choice::Both || choice == Choice::BothReversed
}

/// Whether a choice takes the pack's side into the result.
pub fn takes_theirs(choice: Choice) -> (r: bool)
    ensures
        r == (choice == Choice::Theirs || choice == Choice::Both || choice
            == Choice::BothReversed),
{
    choice == Choice::Theirs || choice == Choice::Both || choice == Choice::BothReversed
}

// ---------------------------------------------------------------------------
// Showing
// ---------------------------------------------------------------------------

/// Something to show for a file, from top to bottom.
#[derive(Debug)]
pub enum Block {
    /// Text that nobody argues about.
    Context(String),
    /// The hunk of that number.
    Card(usize),
}

/// A block as texts.
pub enum BlockView {
    Context(Seq<char>),
    Card(int),
}

impl View for Block {
    type V = BlockView;

    open spec fn view(&self) -> BlockView {
        match *self {
            Block::Context(text) => BlockView::Context(text@),
            Block::Card(at) => BlockView::Card(at as int),
        }
    }
}

pub open spec fn block_views(s: Seq<Block>) -> Seq<BlockView> {
    s.map_values(|b: Block| b@)
}

/// Untouched text as it is shown: the lines around a long stretch, with the rest
/// folded away. A blank stretch is not shown.
pub open spec fn folded(text: Seq<char>) -> Option<Seq<char>> {
    let all = lines(text);
    if trim(text).len() == 0 {
        None
    } else if all.len() > 8 {
        Some(
            join(all.take(3), "\n"@) + "\n    … "@ + decimal((all.len() - 6) as nat)
                + " unchanged lines …\n"@ + join(all.skip(all.len() - 3), "\n"@),
        )
    } else {
        Some(join(all, "\n"@))
    }
}

fn part(all: &Vec<String>, from: usize, to: usize) -> (r: Vec<String>)
    requires
        from <= to <= all.len(),
    ensures
        texts(r@) == texts(all@).subrange(from as int, to as int),
{
    let mut out: Vec<String> = Vec::new();
    let mut i: usize = from;
    while i < to
        invariant
            from <= i <= to <= all.len(),
            out.len() == i - from,
            forall|j: int| 0 <= j < i - from ==> #[trigger] out@[j]@ == all@[from + j]@,
        decreases to - i,
    {
        out.push(all[i].clone());
        i += 1;
    }
    assert(texts(out@) =~= texts(all@).subrange(from as int, to as int));
    out
}

/// Untouched text as it is shown.
pub fn context_block(text: &str) -> (r: Option<String>)
    ensures
        optional_text(r) == folded(text@),
{
    if chars_of(trimmed(text).as_str()).len() == 0 {
        return None;
    }
    let all = bare_lines(text);
    let n = all.len();
    if n > FOLD_THRESHOLD {
        let head = part(&all, 0, CONTEXT_LINES);
        let tail = part(&all, n - CONTEXT_LINES, n);
        proof {
            assert(texts(all@).subrange(0, 3) =~= texts(all@).take(3));
            assert(texts(all@).subrange(n - 3, n as int) =~= texts(all@).skip(n - 3));
        }
        let mut out = joined(&head, "\n");
        out.append("\n    … ");
        out.append(decimal_of((n - 6) as u64).as_str());
        out.append(" unchanged lines …\n");
        out.append(joined(&tail, "\n").as_str());
        Some(out)
    } else {
        Some(joined(&all, "\n"))
    }
}

/// What is shown for the first segments of a file: cards are numbered in order,
/// and without an original there is no untouched text.
pub open spec fn shown(segments: Seq<SegmentView>, hunks: nat, no_base: bool) -> Seq<BlockView>
    decreases segments.len(),
{
    if segments.len() == 0 {
        Seq::empty()
    } else {
        let init = segments.drop_last();
        let so_far = shown(init, hunks, no_base);
        match segments.last() {
            SegmentView::Stable(text) => match folded(text) {
                Some(t) => if no_base {
                    so_far
                } else {
                    so_far.push(BlockView::Context(t))
                },
                None => so_far,
            },
            SegmentView::Conflict { .. } => {
                let at = crate::merge::conflict_count(init);
                if at < hunks {
                    so_far.push(BlockView::Card(at as int))
                } else {
                    so_far
                }
            },
        }
    }
}

/// What to show for a file, from top to bottom.
pub fn blocks(file: &ConflictFile) -> (r: Vec<Block>)
    ensures
        block_views(r@) == shown(
            file@.merge.segments,
            file@.merge.hunks.len(),
            file.no_base,
        ),
{
    let ghost all = file@.merge.segments;
    let hunks = file.merge.hunks.len();
    let mut out: Vec<Block> = Vec::new();
    let mut at: usize = 0;
    let mut i: usize = 0;
    proof {
        assert(all.take(0) =~= Seq::empty());
        assert(block_views(out@) =~= Seq::empty());
    }
    while i < file.merge.segments.len()
        invariant
            all == file@.merge.segments,
            hunks == file@.merge.hunks.len(),
            i <= file.merge.segments.len(),
            at <= i,
            at == crate::merge::conflict_count(all.take(i as int)),
            block_views(out@) == shown(all.take(i as int), hunks as nat, file.no_base),
        decreases file.merge.segments.len() - i,
    {
        let ghost o0 = block_views(out@);
        proof {
            assert(all.take(i + 1).drop_last() =~= all.take(i as int));
            assert(all.take(i + 1).last() == file.merge.segments@[i as int]@);
        }
        match &file.merge.segments[i] {
            Segment::Stable(text) => {
                if let Some(t) = context_block(text.as_str()) {
                    if !file.no_base {
                        let b = Block::Context(t);
                        let ghost bv = b@;
                        out.push(b);
                        assert(block_views(out@) =~= o0.push(bv));
                    }
                }
            },
            Segment::Conflict { .. } => {
                if at < hunks {
                    let b = Block::Card(at);
                    let ghost bv = b@;
                    out.push(b);
                    assert(block_views(out@) =~= o0.push(bv));
                }
                at += 1;
            },
        }
        i += 1;
    }
    assert(all.take(i as int) =~= all);
    out
}

/// A text without the line feeds at its end.
pub open spec fn without_feeds(s: Seq<char>) -> Seq<char>
    decreases s.len(),
{
    if s.len() > 0 && s.last() == '\n' {
        without_feeds(s.drop_last())
    } else {
        s
    }
}

/// One side of a hunk as it is shown.
pub fn code_block(text: &str) -> (r: String)
    ensures
        r@ == (if text@.len() == 0 {
            "(nothing)"@
        } else {
            without_feeds(text@)
        }),
{
    let v = chars_of(text);
    if v.len() == 0 {
        return "(nothing)".to_owned();
    }
    let mut to: usize = v.len();
    assert(text@.take(to as int) =~= text@);
    while to > 0 && v[to - 1] == '\n'
        invariant
            v@ == text@,
            to <= v.len(),
            without_feeds(text@) == without_feeds(text@.take(to as int)),
        decreases to,
    {
        assert(text@.take(to as int).last() == text@[to - 1]);
        assert(text@.take(to as int).drop_last() =~= text@.take(to - 1));
        to -= 1;
    }
    proof {
        if to > 0 {
            assert(text@.take(to as int).last() == text@[to - 1]);
        }
        assert(text@.subrange(0, to as int) =~= text@.take(to as int));
    }
    string_of(&v, 0, to)
}

// ---------------------------------------------------------------------------
// Laws
// ---------------------------------------------------------------------------

/// Going to whole-file mode does not change what is written, nor does choosing to
/// edit a hunk that has not been edited yet.
pub proof fn law_editing_starts_from_the_result(c: ConflictView, at: int)
    requires
        0 <= at < c.merge.hunks.len(),
        c.merge.hunks[at].custom.len() == 0,
    ensures
        opened_whole(c).merge.rendered() == c.merge.rendered(),
        hunk_chosen(c.merge.hunks[at], Choice::Custom).resolved() == c.merge.hunks[at].resolved(),
{
}

/// Leaving whole-file mode gives back the choices that were made before.
pub proof fn law_choices_survive_whole_file_mode(c: ConflictView)
    requires
        c.merge.manual is None,
    ensures
        back_to_hunks(opened_whole(c)).merge == c.merge,
{
}

/// Deciding one hunk leaves the others as they are.
pub proof fn law_a_choice_is_about_one_hunk(c: ConflictView, at: int, choice: Choice, other: int)
    requires
        0 <= at < c.merge.hunks.len(),
        0 <= other < c.merge.hunks.len(),
        other != at,
    ensures
        chosen(c, at, choice).merge.hunks[other] == c.merge.hunks[other],
        chosen(c, at, choice).merge.hunks[at].choice == choice,
        chosen(c, at, choice).reviewed,
{
}

/// Deciding a file the same way throughout sets every hunk to that choice, marks the
/// file as looked at, and changes nothing else of it.
pub proof fn law_one_choice_for_a_file(c: ConflictView, choice: Choice, k: int)
    requires
        0 <= k < c.merge.hunks.len(),
    ensures
        ({
            let out = one_side(c, choice);
            let before = c.merge.hunks[k];
            let now = out.merge.hunks[k];
            &&& out.rel == c.rel && out.no_base == c.no_base && out.reviewed
            &&& out.merge.segments == c.merge.segments && out.merge.manual == c.merge.manual
            &&& out.merge.hunks.len() == c.merge.hunks.len()
            &&& now.choice == choice
            &&& now.ours == before.ours && now.theirs == before.theirs
            &&& now.base == before.base && now.custom == before.custom
        }),
{
}

/// Choosing for one hunk sets its choice and keeps its sides. Choosing to edit starts
/// from what the hunk put into the file before, unless something was typed already.
pub proof fn law_what_a_choice_changes(c: ConflictView, at: int, choice: Choice)
    requires
        0 <= at < c.merge.hunks.len(),
    ensures
        ({
            let out = chosen(c, at, choice);
            let before = c.merge.hunks[at];
            let now = out.merge.hunks[at];
            &&& out.rel == c.rel && out.no_base == c.no_base && out.reviewed
            &&& out.merge.segments == c.merge.segments && out.merge.manual == c.merge.manual
            &&& out.merge.hunks.len() == c.merge.hunks.len()
            &&& now.choice == choice
            &&& now.ours == before.ours && now.theirs == before.theirs && now.base == before.base
            &&& choice == Choice::Custom && before.custom.len() == 0 ==> crate::merge::puts(
                before,
                now.custom,
            )
            &&& choice != Choice::Custom || before.custom.len() > 0 ==> now.custom == before.custom
        }),
{
    let before = c.merge.hunks[at];
    crate::merge::law_a_choice_puts_its_own_text(before, before.resolved());
}

/// Whole-file mode holds a text of its own and marks the file as looked at; the hunks
/// stay as they are, and leaving it lets go of that text.
pub proof fn law_what_whole_file_mode_changes(c: ConflictView)
    ensures
        opened_whole(c).merge.manual == Some(c.merge.rendered()),
        opened_whole(c).merge.hunks == c.merge.hunks,
        opened_whole(c).merge.segments == c.merge.segments,
        opened_whole(c).reviewed,
        opened_whole(c).rel == c.rel,
        back_to_hunks(c).merge.manual is None,
        back_to_hunks(c).merge.hunks == c.merge.hunks,
        back_to_hunks(c).merge.segments == c.merge.segments,
        back_to_hunks(c).reviewed == c.reviewed,
        back_to_hunks(c).rel == c.rel,
{
}

/// A stretch of more than eight lines is folded down to its first three and its last
/// three, with the number of those in between; a shorter one is shown whole, and a
/// blank one not at all.
pub proof fn law_long_stretches_are_folded(text: Seq<char>)
    ensures
        ({
            let all = lines(text);
            let n = all.len() as int;
            let blank = forall|i: int|
                0 <= i < text.len() ==> crate::text::is_white(#[trigger] text[i]);
            &&& blank <==> folded(text) is None
            &&& !blank && n > 8 ==> folded(text) == Some(
                all[0] + "\n"@ + all[1] + "\n"@ + all[2] + "\n    … "@ + decimal((n - 6) as nat)
                    + " unchanged lines …\n"@ + (all[n - 3] + "\n"@ + all[n - 2] + "\n"@ + all[n
                    - 1]),
            )
            &&& !blank && n <= 8 ==> folded(text) == Some(join(all, "\n"@))
        }),
{
    let all = lines(text);
    let n = all.len() as int;
    lemma_blank(text);
    if n > 8 {
        lemma_join_three(all.take(3), "\n"@);
        lemma_join_three(all.skip(n - 3), "\n"@);
        assert(all.skip(n - 3)[0] == all[n - 3] && all.skip(n - 3)[1] == all[n - 2] && all.skip(
            n - 3,
        )[2] == all[n - 1]);
        assert(all.take(3)[0] == all[0] && all.take(3)[1] == all[1] && all.take(3)[2] == all[2]);
    }
}

proof fn lemma_blank(text: Seq<char>)
    ensures
        trim(text).len() == 0 <==> forall|i: int|
            0 <= i < text.len() ==> crate::text::is_white(#[trigger] text[i]),
{
    let none: Seq<char> = Seq::empty();
    if forall|i: int| 0 <= i < text.len() ==> crate::text::is_white(#[trigger] text[i]) {
        crate::text::law_trimming(text, none, none);
        assert(text + none + none =~= text);
    } else {
        crate::text::lemma_blank_is_white(text);
    }
}

proof fn lemma_join_three(s: Seq<Seq<char>>, sep: Seq<char>)
    requires
        s.len() == 3,
    ensures
        join(s, sep) == s[0] + sep + s[1] + sep + s[2],
{
    reveal_with_fuel(join, 4);
    assert(s.drop_last().drop_last() =~= seq![s[0]]);
    assert(s.drop_last() =~= seq![s[0], s[1]]);
    assert(join(s, sep) =~= s[0] + sep + s[1] + sep + s[2]);
}

proof fn lemma_shown(
    segments: Seq<SegmentView>,
    hunks: nat,
    no_base: bool,
)
    ensures
        forall|b: BlockView| #[trigger]
            shown(segments, hunks, no_base).contains(b) <==> match b {
                BlockView::Card(k) => 0 <= k < hunks && k < crate::merge::conflict_count(segments),
                BlockView::Context(t) => !no_base && exists|i: int|
                    0 <= i < segments.len() && (#[trigger] segments[i] matches SegmentView::Stable(
                        text,
                    ) && folded(text) == Some(t)),
            },
    decreases segments.len(),
{
    let all = shown(segments, hunks, no_base);
    if segments.len() > 0 {
        let init = segments.drop_last();
        let less = shown(init, hunks, no_base);
        lemma_shown(init, hunks, no_base);
        assert(segments[segments.len() - 1] == segments.last());
        assert forall|b: BlockView| #[trigger] all.contains(b) <==> match b {
            BlockView::Card(k) => 0 <= k < hunks && k < crate::merge::conflict_count(segments),
            BlockView::Context(t) => !no_base && exists|i: int|
                0 <= i < segments.len() && (#[trigger] segments[i] matches SegmentView::Stable(text)
                    && folded(text) == Some(t)),
        } by {
            if all.contains(b) {
                let i = all.index_of(b);
                if i < less.len() {
                    assert(less[i] == b);
                    assert(less.contains(b));
                }
            }
            if less.contains(b) {
                assert(all[less.index_of(b)] == b);
            }
            if all.len() > less.len() && b == all.last() {
                assert(all[all.len() - 1] == b);
            }
            match b {
                BlockView::Card(k) => {},
                BlockView::Context(t) => {
                    if exists|i: int|
                        0 <= i < init.len() && (#[trigger] init[i] matches SegmentView::Stable(text)
                            && folded(text) == Some(t)) {
                        let i = choose|i: int|
                            0 <= i < init.len() && (#[trigger] init[i] matches SegmentView::Stable(
                                text,
                            ) && folded(text) == Some(t));
                        assert(segments[i] == init[i]);
                    }
                    if exists|i: int|
                        0 <= i < segments.len() && (#[trigger] segments[i] matches SegmentView::Stable(
                            text,
                        ) && folded(text) == Some(t)) {
                        let i = choose|i: int|
                            0 <= i < segments.len()
                                && (#[trigger] segments[i] matches SegmentView::Stable(text)
                                && folded(text) == Some(t));
                        if i < init.len() {
                            assert(init[i] == segments[i]);
                        }
                    }
                },
            }
        }
    }
}

/// Every conflict is shown as a card of its own, and every stretch of untouched text
/// that is not blank, folded; where there is no original only the cards are.
pub proof fn law_everything_in_question_is_shown(
    segments: Seq<SegmentView>,
    at: Seq<int>,
    no_base: bool,
)
    requires
        crate::merge::conflicts_at(segments, at),
    ensures
        ({
            let out = shown(segments, at.len(), no_base);
            &&& forall|k: int| #[trigger] out.contains(BlockView::Card(k)) <==> 0 <= k < at.len()
            &&& forall|t: Seq<char>| #[trigger]
                out.contains(BlockView::Context(t)) <==> !no_base && exists|i: int|
                    0 <= i < segments.len() && (#[trigger] segments[i] matches SegmentView::Stable(
                        text,
                    ) && folded(text) == Some(t))
        }),
{
    lemma_shown(segments, at.len(), no_base);
    crate::merge::lemma_conflict_count(segments, at);
}

/// A side is shown without the line feeds at its end.
pub proof fn law_line_feeds_at_the_end_are_not_shown(s: Seq<char>, feeds: Seq<char>)
    requires
        s.len() > 0 ==> s.last() != '\n',
        forall|i: int| 0 <= i < feeds.len() ==> #[trigger] feeds[i] == '\n',
    ensures
        without_feeds(s + feeds) == s,
    decreases feeds.len(),
{
    if feeds.len() > 0 {
        let less = feeds.drop_last();
        assert((s + feeds).last() == feeds[feeds.len() - 1]);
        assert((s + feeds).drop_last() =~= s + less);
        assert forall|i: int| 0 <= i < less.len() implies #[trigger] less[i] == '\n' by {
            assert(less[i] == feeds[i]);
        }
        law_line_feeds_at_the_end_are_not_shown(s, less);
    } else {
        assert(s + feeds =~= s);
    }
}

/// A choice of both sides takes both, in either order; a choice of one takes that one,
/// and a text that was typed neither.
pub proof fn law_which_sides_a_choice_takes(choice: Choice, ours: bool, theirs: bool)
    requires
        call_ensures(takes_ours, (choice,), ours),
        call_ensures(takes_theirs, (choice,), theirs),
    ensures
        choice == Choice::Ours ==> ours && !theirs,
        choice == Choice::Theirs ==> !ours && theirs,
        choice == Choice::Both || choice == Choice::BothReversed ==> ours && theirs,
        choice == Choice::Custom ==> !ours && !theirs,
{
}

/// A side is shown as it is, without the line feeds at its end; an empty one is said to
/// be nothing.
pub proof fn law_how_a_side_is_shown(text: &str, r: String)
    requires
        call_ensures(code_block, (text,), r),
    ensures
        text@.len() == 0 ==> r@ == "(nothing)"@,
        text@.len() > 0 && text@.last() != '\n' ==> r@ == text@,
{
    let none: Seq<char> = Seq::empty();
    if text@.len() > 0 && text@.last() != '\n' {
        law_line_feeds_at_the_end_are_not_shown(text@, none);
        assert(text@ + none =~= text@);
    }
}

} // verus!
