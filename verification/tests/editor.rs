use gtnh_updater::editor::{blocks, code_block, context_block, takes_ours, takes_theirs, Block};
use gtnh_updater::merge::{parse_markers, MARK_LENGTH, Choice};
use gtnh_updater::plan::ConflictFile;

fn file(text: &str) -> ConflictFile {
    ConflictFile {
        rel: "config/a.cfg".into(),
        merge: parse_markers(text, MARK_LENGTH),
        no_base: false,
        reviewed: false,
    }
}

const TWO: &str = "head\n<<<<<<< ours\no1\n||||||| original\nb1\n=======\nt1\n>>>>>>> theirs\nmid\n<<<<<<< ours\no2\n||||||| original\nb2\n=======\nt2\n>>>>>>> theirs\n";

#[test]
fn one_side_can_be_taken_everywhere() {
    let mut f = file(TWO);
    f.take_all(Choice::Ours);
    assert_eq!(f.merge.render(), "head\no1\nmid\no2\n");
    assert!(f.reviewed);
}

#[test]
fn a_choice_is_about_one_hunk() {
    let mut f = file(TWO);
    f.choose_hunk(1, Choice::Both);
    assert_eq!(f.merge.render(), "head\nt1\nmid\no2\nt2\n");
    assert!(f.reviewed);
}

#[test]
fn editing_a_hunk_starts_from_its_result() {
    let mut f = file(TWO);
    f.choose_hunk(0, Choice::Ours);
    f.choose_hunk(0, Choice::Custom);
    assert_eq!(f.merge.hunks[0].custom, "o1\n");
    f.merge.hunks[0].custom = "mine\n".into();
    f.choose_hunk(0, Choice::Theirs);
    f.choose_hunk(0, Choice::Custom);
    assert_eq!(f.merge.hunks[0].custom, "mine\n");
}

#[test]
fn whole_file_mode_keeps_the_choices() {
    let mut f = file(TWO);
    f.choose_hunk(0, Choice::Ours);
    let before = f.merge.render();
    f.edit_whole();
    assert_eq!(f.merge.render(), before);
    f.merge.manual = Some("x".into());
    assert_eq!(f.merge.render(), "x");
    f.edit_hunks();
    assert_eq!(f.merge.render(), before);
}

#[test]
fn subtitles_count_the_conflicts() {
    assert_eq!(
        file(TWO).subtitle("Daily 690"),
        "2 conflicts — everything else merged automatically."
    );
    let mut f = file("<<<<<<< ours\no\n||||||| original\nb\n=======\nt\n>>>>>>> theirs\n");
    assert_eq!(
        f.subtitle("Daily 690"),
        "1 conflict — everything else merged automatically."
    );
    f.no_base = true;
    assert_eq!(
        f.subtitle("Daily 690"),
        "The original version of this file could not be recovered — pick one side. (Daily 690 vs yours)"
    );
}

#[test]
fn long_context_is_folded() {
    assert_eq!(context_block(" \n\t\n"), None);
    assert_eq!(context_block("a\nb\n").as_deref(), Some("a\nb"));
    let eight: String = (1..=8).map(|i| format!("{i}\n")).collect();
    assert_eq!(context_block(&eight).as_deref(), Some("1\n2\n3\n4\n5\n6\n7\n8"));
    let nine: String = (1..=9).map(|i| format!("{i}\n")).collect();
    assert_eq!(
        context_block(&nine).as_deref(),
        Some("1\n2\n3\n    … 3 unchanged lines …\n7\n8\n9")
    );
}

#[test]
fn blocks_come_in_order() {
    let shown: Vec<String> = blocks(&file(TWO))
        .iter()
        .map(|b| match b {
            Block::Context(t) => t.clone(),
            Block::Card(i) => format!("#{i}"),
        })
        .collect();
    assert_eq!(shown, vec!["head", "#0", "mid", "#1"]);
    let mut f = file(TWO);
    f.no_base = true;
    assert_eq!(blocks(&f).len(), 2);
}

#[test]
fn sides_are_shown_without_their_last_line_feeds() {
    assert_eq!(code_block(""), "(nothing)");
    assert_eq!(code_block("a\nb\n\n"), "a\nb");
    assert_eq!(code_block("\n"), "");
}

#[test]
fn both_choices_take_both_sides() {
    for (choice, ours, theirs) in [
        (Choice::Ours, true, false),
        (Choice::Theirs, false, true),
        (Choice::Both, true, true),
        (Choice::BothReversed, true, true),
        (Choice::Custom, false, false),
    ] {
        assert_eq!((takes_ours(choice), takes_theirs(choice)), (ours, theirs));
    }
}
