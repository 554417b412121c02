use gtnh_updater::merge::{
    marker_length, parse_markers, three_way, Choice, MergeOutcome, Segment, TextMerge, MARK_LENGTH,
};
use gtnh_updater::plan::ConflictFile;

/// The common case: you tweaked one setting, the pack tweaked a different
/// one. Both changes end up in the result with nothing to review.
#[test]
fn edits_in_different_places_merge_without_conflict() {
    let base = "alpha=1\nbeta=2\ngamma=3\ndelta=4\nepsilon=5\n";
    let ours = "alpha=1\nbeta=2\ngamma=3\ndelta=4\nepsilon=99\n";
    let theirs = "alpha=42\nbeta=2\ngamma=3\ndelta=4\nepsilon=5\n";
    match three_way(base, ours, theirs) {
        MergeOutcome::Clean(text) => {
            assert_eq!(text, "alpha=42\nbeta=2\ngamma=3\ndelta=4\nepsilon=99\n");
        }
        MergeOutcome::Conflicted(_) => panic!("should merge cleanly"),
    }
}

/// A line you appended right after a line the pack changed counts as a
/// collision, exactly as `git merge-file` reports it.
#[test]
fn adjacent_edits_conflict_like_git_does() {
    let base = "a=1\nb=2\n";
    let ours = "a=1\nb=2\nc=3\n";
    let theirs = "a=1\nb=99\n";
    let MergeOutcome::Conflicted(m) = three_way(base, ours, theirs) else {
        panic!("expected a conflict");
    };
    assert_eq!(m.hunks.len(), 1);
    assert_eq!(m.hunks[0].ours, "b=2\nc=3\n");
    assert_eq!(m.hunks[0].theirs, "b=99\n");
}

#[test]
fn same_line_edits_conflict_and_keep_all_sides() {
    let base = "x=1\n";
    let ours = "x=2\n";
    let theirs = "x=3\n";
    let MergeOutcome::Conflicted(mut m) = three_way(base, ours, theirs) else {
        panic!("expected a conflict");
    };
    assert_eq!(m.hunks.len(), 1);
    assert_eq!(m.hunks[0].ours, "x=2\n");
    assert_eq!(m.hunks[0].base, "x=1\n");
    assert_eq!(m.hunks[0].theirs, "x=3\n");
    assert_eq!(m.render(), "x=3\n");
    m.hunks[0].choice = Choice::Ours;
    assert_eq!(m.render(), "x=2\n");
    m.hunks[0].choice = Choice::Both;
    assert_eq!(m.render(), "x=2\nx=3\n");
}

#[test]
fn stable_text_around_conflicts_survives() {
    let base = "head\nmid\ntail\n";
    let ours = "head\nMINE\ntail\n";
    let theirs = "head\nPACK\ntail\n";
    let MergeOutcome::Conflicted(m) = three_way(base, ours, theirs) else {
        panic!("expected a conflict");
    };
    assert_eq!(m.render(), "head\nPACK\ntail\n");
}

fn sample_conflict(rel: &str) -> ConflictFile {
    let MergeOutcome::Conflicted(m) = three_way(
        "pollution=true\nnoise=1\n",
        "pollution=false\nnoise=1\n",
        "pollution=maybe\nnoise=1\n",
    ) else {
        panic!("fixture should conflict");
    };
    ConflictFile {
        rel: rel.to_string(),
        merge: m,
        no_base: false,
        reviewed: false,
    }
}

/// Resolving a conflict changes what gets written for that file.
#[test]
fn conflict_choices_change_the_output() {
    let mut file = sample_conflict("config/GregTech.cfg");
    assert_eq!(file.merge.render(), "pollution=maybe\nnoise=1\n");
    file.merge.hunks[0].choice = Choice::Ours;
    assert_eq!(file.merge.render(), "pollution=false\nnoise=1\n");
    file.merge.manual = Some("pollution=custom\n".into());
    assert_eq!(file.merge.render(), "pollution=custom\n");
}

/// The last line of a file often has no line feed; the markers still stand on
/// lines of their own.
#[test]
fn sides_without_a_final_line_feed_are_kept_apart() {
    let MergeOutcome::Conflicted(m) = three_way("x=1", "x=2", "x=3") else {
        panic!("expected a conflict");
    };
    assert_eq!(m.hunks.len(), 1);
    assert_eq!(m.hunks[0].ours.trim_end(), "x=2");
    assert_eq!(m.hunks[0].base.trim_end(), "x=1");
    assert_eq!(m.hunks[0].theirs.trim_end(), "x=3");
}

#[test]
fn markers_read_as_three_sides() {
    let text = "a\n<<<<<<< ours\no\n||||||| original\nb\n=======\nt\n>>>>>>> theirs\nz\n";
    let m = parse_markers(text, MARK_LENGTH);
    assert_eq!(m.hunks.len(), 1);
    assert_eq!(m.hunks[0].ours, "o\n");
    assert_eq!(m.hunks[0].base, "b\n");
    assert_eq!(m.hunks[0].theirs, "t\n");
    assert_eq!(m.hunks[0].choice, Choice::Theirs);
    assert_eq!(m.segments.len(), 3);
    assert_eq!(m.render(), "a\nt\nz\n");
}

#[test]
fn text_without_conflicts_is_one_segment() {
    let m = parse_markers("a\nb", MARK_LENGTH);
    assert!(m.hunks.is_empty());
    assert_eq!(m.render(), "a\nb");
    assert!(parse_markers("", MARK_LENGTH).segments.is_empty());
}

#[test]
fn every_choice_renders() {
    let text = "<<<<<<< ours\no\n||||||| original\nb\n=======\nt\n>>>>>>> theirs\n";
    let mut m: TextMerge = parse_markers(text, MARK_LENGTH);
    for (choice, wanted) in [
        (Choice::Ours, "o\n"),
        (Choice::Theirs, "t\n"),
        (Choice::Both, "o\nt\n"),
        (Choice::BothReversed, "t\no\n"),
        (Choice::Custom, "c\n"),
    ] {
        m.hunks[0].choice = choice;
        m.hunks[0].custom = "c\n".into();
        assert_eq!(m.render(), wanted);
    }
    assert!(matches!(m.segments[0], Segment::Conflict { .. }));
}

#[test]
fn every_conflict_comes_back_with_its_sides() {
    let text = "head\n<<<<<<< ours\no1\n||||||| original\nb1\n=======\nt1\n>>>>>>> theirs\nmid\n<<<<<<< ours\n||||||| original\nb2\n=======\nt2\n>>>>>>> theirs\n";
    let m = parse_markers(text, MARK_LENGTH);
    let sides: Vec<(&str, &str, &str)> = m
        .hunks
        .iter()
        .map(|h| (h.ours.as_str(), h.base.as_str(), h.theirs.as_str()))
        .collect();
    assert_eq!(sides, vec![("o1\n", "b1\n", "t1\n"), ("", "b2\n", "t2\n")]);
    assert_eq!(m.segments.len(), 4);
    assert_eq!(m.render(), "head\nt1\nmid\nt2\n");
}

fn only_hunk(base: &str, ours: &str, theirs: &str) -> (String, String, String) {
    let MergeOutcome::Conflicted(m) = three_way(base, ours, theirs) else {
        panic!("expected a conflict");
    };
    assert_eq!(m.hunks.len(), 1);
    let h = &m.hunks[0];
    (h.ours.clone(), h.base.clone(), h.theirs.clone())
}

/// A line that looks like a marker stays in the side it belongs to.
#[test]
fn lines_that_look_like_markers_stay_in_their_side() {
    let marks = ["=======\n", "<<<<<<< ours\n", "||||||| original\n", ">>>>>>> theirs\n"];
    for mark in marks {
        let same = |a: &str, b: &str, c: &str| (a.to_string(), b.to_string(), c.to_string());
        assert_eq!(only_hunk("x=1\n", mark, "y=1\n"), same(mark, "x=1\n", "y=1\n"));
        assert_eq!(only_hunk(mark, "x=1\n", "y=1\n"), same("x=1\n", mark, "y=1\n"));
        assert_eq!(only_hunk("x=1\n", "y=1\n", mark), same("y=1\n", "x=1\n", mark));
    }
    let MergeOutcome::Conflicted(m) =
        three_way("<<<<<<<\na\n", "<<<<<<<\nb\n", "<<<<<<<\nc\n")
    else {
        panic!("expected a conflict");
    };
    assert_eq!(m.segments.len(), 2);
    assert_eq!(m.render(), "<<<<<<<\nc\n");
}

#[test]
fn markers_are_longer_than_any_run_in_the_files() {
    assert_eq!(marker_length("a\n", "b\n", "c"), 7);
    assert_eq!(marker_length("======\n", "", ""), 7);
    assert_eq!(marker_length("a\n", "=======\n", ">>>>>>>> x"), 9);
    assert_eq!(marker_length("a =======\n", "", ""), 7);
}

/// What only one side changed is that side's version.
#[test]
fn a_side_that_is_the_original_gives_way() {
    for (base, other) in [("a\nb\n", "a\nc\n"), ("", "a"), ("a", ""), ("a\n", "a"), ("=======\n", "x")] {
        let clean = |r: MergeOutcome| match r {
            MergeOutcome::Clean(t) => t,
            MergeOutcome::Conflicted(_) => panic!("should merge cleanly"),
        };
        assert_eq!(clean(three_way(base, other, base)), other);
        assert_eq!(clean(three_way(base, base, other)), other);
    }
}

/// A marker out of place is text, and a conflict may come without the original.
#[test]
fn a_conflict_may_come_without_the_original() {
    let text = "<<<<<<< ours\n>>>>>>> x\no\n=======\n||||||| y\nt\n>>>>>>> theirs\nz\n";
    let m = parse_markers(text, MARK_LENGTH);
    assert_eq!(m.hunks.len(), 1);
    assert_eq!(m.hunks[0].ours, ">>>>>>> x\no\n");
    assert_eq!(m.hunks[0].base, "");
    assert_eq!(m.hunks[0].theirs, "||||||| y\nt\n");
    assert_eq!(m.segments.len(), 2);
    let m = parse_markers("<<<<<<<\na\n=======\nb\n>>>>>>>\n", MARK_LENGTH);
    assert_eq!((m.hunks[0].ours.as_str(), m.hunks[0].theirs.as_str()), ("a\n", "b\n"));
}
