//! Per-instance updater state: which build is installed, and where the pristine
//! copy of the pack's text config is kept so the next update has a real merge
//! base.
use vstd::prelude::*;
use vstd::arithmetic::div_mod::{lemma_hoist_over_denominator, lemma_mod_multiples_vanish};
use vstd::string::*;

use crate::github::DailyArtifact;
use crate::merge::optional_text;
use crate::text::{
    cut_at_text, four_digits, padded, parse_nat, split_at_text, strip_prefix, strip_suffix, texts,
    trim, trimmed, two_digits, u32_in, without_prefix, without_suffix,
};
use crate::util::{join_path, path_in};

verus! {

pub const STATE_DIR: &'static str = ".gtnh-updater";

#[derive(Debug, Clone)]
pub struct InstanceState {
    pub build: Option<u32>,
    pub date: Option<String>,
    pub variant: Option<String>,
    pub artifact_id: Option<u64>,
    pub updated_at: Option<String>,
    /// Directory name of the instance this one was updated from.
    pub updated_from: Option<String>,
}

impl Default for InstanceState {
    fn default() -> (r: Self)
        ensures
            r.build is None,
            r.date is None,
            r.variant is None,
            r.artifact_id is None,
            r.updated_at is None,
            r.updated_from is None,
    {
        InstanceState {
            build: None,
            date: None,
            variant: None,
            artifact_id: None,
            updated_at: None,
            updated_from: None,
        }
    }
}

/// The build an instance is on: what its state says, else the newest of its
/// changelogs.
pub fn installed_build(state: &InstanceState, from_changelogs: Option<u32>) -> (r: Option<u32>)
    ensures
        r == (match state.build {
            Some(b) => Some(b),
            None => from_changelogs,
        }),
{
    match state.build {
        Some(b) => Some(b),
        None => from_changelogs,
    }
}

impl InstanceState {
    /// The state of an instance that was updated to this artifact.
    pub fn updated(artifact: &DailyArtifact, now: String, from: Option<String>) -> (r: Self)
        ensures
            r.build == Some(artifact.build),
            optional_text(r.date) == Some(artifact.date@),
            optional_text(r.variant) == Some(artifact.variant@),
            r.artifact_id == Some(artifact.id),
            r.updated_at == Some(now),
            r.updated_from == from,
    {
        InstanceState {
            build: Some(artifact.build),
            date: Some(artifact.date.clone()),
            variant: Some(artifact.variant.clone()),
            artifact_id: Some(artifact.id),
            updated_at: Some(now),
            updated_from: from,
        }
    }
}

// ---------------------------------------------------------------------------
// Where things are kept
// ---------------------------------------------------------------------------

pub fn state_dir(instance_dir: &str) -> (r: String)
    ensures
        r@ == path_in(instance_dir@, ".gtnh-updater"@),
{
    join_path(instance_dir, STATE_DIR)
}

/// The pristine pack files this tool saved when it created the instance.
pub fn base_zip(instance_dir: &str) -> (r: String)
    ensures
        r@ == path_in(path_in(instance_dir@, ".gtnh-updater"@), "base.zip"@),
{
    join_path(state_dir(instance_dir).as_str(), "base.zip")
}

pub fn state_path(instance_dir: &str) -> (r: String)
    ensures
        r@ == path_in(path_in(instance_dir@, ".gtnh-updater"@), "state.json"@),
{
    join_path(state_dir(instance_dir).as_str(), "state.json")
}

// ---------------------------------------------------------------------------
// The build an instance is on
// ---------------------------------------------------------------------------

/// The build that a `changelog from daily <a> to <b>.md` leads to.
pub open spec fn changelog_target(name: Seq<char>) -> Option<nat> {
    match strip_prefix(name, "changelog from daily "@) {
        Some(rest) => match strip_suffix(rest, ".md"@) {
            Some(rest) => match split_at_text(rest, " to "@) {
                Some((_, to)) => parse_nat(trim(to), u32::MAX as nat),
                None => None,
            },
            None => None,
        },
        None => None,
    }
}

/// The highest build that the names lead to.
pub open spec fn highest_target(names: Seq<Seq<char>>) -> Option<nat>
    decreases names.len(),
{
    if names.len() == 0 {
        None
    } else {
        match (highest_target(names.drop_last()), changelog_target(names.last())) {
            (Some(best), Some(n)) => Some(
                if n > best {
                    n
                } else {
                    best
                },
            ),
            (None, found) => found,
            (best, None) => best,
        }
    }
}

fn target_in(name: &str) -> (r: Option<u32>)
    ensures
        r is Some <==> changelog_target(name@) is Some,
        r matches Some(n) ==> changelog_target(name@) == Some(n as nat),
{
    let rest = match without_prefix(name, "changelog from daily ") {
        Some(rest) => rest,
        None => return None,
    };
    let rest = match without_suffix(rest.as_str(), ".md") {
        Some(rest) => rest,
        None => return None,
    };
    match cut_at_text(rest.as_str(), " to ") {
        Some((_, to)) => u32_in(trimmed(to.as_str()).as_str()),
        None => None,
    }
}

/// Every daily zip drops a `changelog from daily <a> to <b>.md` in `.minecraft`.
/// The highest `<b>` across the file names there is the build the instance is
/// on: the fallback when there is no updater state yet.
pub fn detect_build_from_changelogs(names: &Vec<String>) -> (r: Option<u32>)
    ensures
        r is Some <==> highest_target(texts(names@)) is Some,
        r matches Some(n) ==> highest_target(texts(names@)) == Some(n as nat),
{
    let ghost all = texts(names@);
    let mut best: Option<u32> = None;
    let mut i: usize = 0;
    assert(all.take(0) =~= Seq::empty());
    while i < names.len()
        invariant
            all == texts(names@),
            i <= names.len(),
            best is Some <==> highest_target(all.take(i as int)) is Some,
            best matches Some(n) ==> highest_target(all.take(i as int)) == Some(n as nat),
        decreases names.len() - i,
    {
        assert(all.take(i + 1).drop_last() =~= all.take(i as int));
        assert(all.take(i + 1).last() == names@[i as int]@);
        if let Some(n) = target_in(names[i].as_str()) {
            best = match best {
                Some(b) => Some(
                    if n > b {
                        n
                    } else {
                        b
                    },
                ),
                None => Some(n),
            };
        }
        i += 1;
    }
    assert(all.take(i as int) =~= all);
    best
}

/// The detected build is one that a changelog leads to, and no changelog leads
/// to a higher one.
pub proof fn law_detected_build_is_the_highest(names: Seq<Seq<char>>)
    ensures
        highest_target(names) is Some <==> exists|i: int|
            0 <= i < names.len() && changelog_target(#[trigger] names[i]) is Some,
        highest_target(names) matches Some(n) ==> exists|i: int|
            0 <= i < names.len() && changelog_target(#[trigger] names[i]) == Some(n),
        highest_target(names) matches Some(n) ==> forall|i: int|
            0 <= i < names.len() ==> (changelog_target(#[trigger] names[i]) matches Some(k) ==> k
                <= n),
    decreases names.len(),
{
    if names.len() > 0 {
        let init = names.drop_last();
        law_detected_build_is_the_highest(init);
        assert forall|i: int| 0 <= i < init.len() implies #[trigger] names[i] == init[i] by {}
        assert(names[names.len() - 1] == names.last());
        if highest_target(init) is Some {
            let i = choose|i: int|
                0 <= i < init.len() && changelog_target(#[trigger] init[i])
                    == highest_target(init);
            assert(changelog_target(names[i]) is Some);
        }
        assert forall|i: int|
            0 <= i < names.len() && changelog_target(#[trigger] names[i]) is Some implies
            highest_target(names) is Some && changelog_target(names[i])->0 <= highest_target(
            names,
        )->0 by {
            if i < init.len() {
                assert(changelog_target(init[i]) is Some);
            }
        }
    }
}

// ---------------------------------------------------------------------------
// Dates
// ---------------------------------------------------------------------------

pub open spec fn leap_year(y: int) -> bool {
    y % 4 == 0 && (y % 100 != 0 || y % 400 == 0)
}

pub open spec fn leap_day(y: int) -> int {
    if leap_year(y) {
        1
    } else {
        0
    }
}

/// How many days the year has before the month.
pub open spec fn days_before_month(y: int, m: int) -> int {
    if m == 1 {
        0
    } else if m == 2 {
        31
    } else {
        leap_day(y) + if m == 3 {
            59int
        } else if m == 4 {
            90
        } else if m == 5 {
            120
        } else if m == 6 {
            151
        } else if m == 7 {
            181
        } else if m == 8 {
            212
        } else if m == 9 {
            243
        } else if m == 10 {
            273
        } else if m == 11 {
            304
        } else if m == 12 {
            334
        } else {
            365
        }
    }
}

/// The days from the first day of year 1 to the first day of year `y`, in the
/// Gregorian calendar.
pub open spec fn days_before_year(y: int) -> int {
    365 * (y - 1) + (y - 1) / 4 - (y - 1) / 100 + (y - 1) / 400
}

/// The date stands in the calendar and lies `days` days after 1 January 1970.
pub open spec fn is_date(y: int, m: int, d: int, days: int) -> bool {
    &&& 1 <= m <= 12
    &&& 1 <= d <= days_before_month(y, m + 1) - days_before_month(y, m)
    &&& days_before_year(y) + days_before_month(y, m) + d - 1 - 719162 == days
}

proof fn lemma_quotient_steps(y: int)
    ensures
        y / 4 == (y - 1) / 4 + if y % 4 == 0 {
            1int
        } else {
            0
        },
        y / 100 == (y - 1) / 100 + if y % 100 == 0 {
            1int
        } else {
            0
        },
        y / 400 == (y - 1) / 400 + if y % 400 == 0 {
            1int
        } else {
            0
        },
        y % 400 == 0 ==> y % 100 == 0,
        y % 100 == 0 ==> y % 4 == 0,
{
}

/// The days before a year in terms of the years that start in March.
proof fn lemma_march(y: int)
    ensures
        days_before_year(y) + 59 + leap_day(y) + 306 == 365 * y + y / 4 - y / 100 + y / 400,
{
    lemma_quotient_steps(y);
}

/// The month and the day of a day of the year that starts in March.
proof fn lemma_month(doy: int, mp: int, d: int, y: int)
    requires
        0 <= doy <= 364 + leap_day(y + 1),
        mp == (5 * doy + 2) / 153,
        d == doy - (153 * mp + 2) / 5 + 1,
    ensures
        0 <= mp <= 11,
        1 <= d,
        mp < 10 ==> days_before_month(y, mp + 3) + d - 1 == 59 + leap_day(y) + doy && d
            <= days_before_month(y, mp + 4) - days_before_month(y, mp + 3),
        mp >= 10 ==> days_before_month(y + 1, mp - 9) + d - 1 == doy - 306 && d
            <= days_before_month(y + 1, mp - 8) - days_before_month(y + 1, mp - 9),
{
}

/// The year of the era that a day of the era falls into.
#[verifier::spinoff_prover]
#[verifier::rlimit(40)]
proof fn lemma_year_of_era(doe: int, yoe: int)
    requires
        0 <= doe <= 146_096,
        yoe == (doe - doe / 1460 + doe / 36524 - doe / 146_096) / 365,
    ensures
        0 <= yoe <= 399,
        365 * yoe + yoe / 4 - yoe / 100 <= doe,
        doe <= 365 * yoe + yoe / 4 - yoe / 100 + 364 + leap_day(yoe + 1),
{
}

proof fn lemma_in_era(y: int, era: int, yoe: int)
    requires
        y == yoe + 400 * era,
        0 <= yoe <= 399,
    ensures
        y / 4 == 100 * era + yoe / 4,
        y / 100 == 4 * era + yoe / 100,
        y / 400 == era,
        leap_day(y + 1) == leap_day(yoe + 1),
{
    lemma_hoist_over_denominator(yoe, 100 * era, 4);
    lemma_hoist_over_denominator(yoe, 4 * era, 100);
    lemma_hoist_over_denominator(yoe, era, 400);
    lemma_mod_multiples_vanish(100 * era, yoe + 1, 4);
    lemma_mod_multiples_vanish(4 * era, yoe + 1, 100);
    lemma_mod_multiples_vanish(era, yoe + 1, 400);
    assert(4 * (100 * era) == 400 * era && 100 * (4 * era) == 400 * era);
}

/// Howard Hinnant's days-from-civil, inverted.
pub fn civil_from_days(z: i64) -> (r: (i64, u32, u32))
    requires
        z <= i64::MAX - 719_468,
    ensures
        is_date(r.0 as int, r.1 as int, r.2 as int, z as int),
{
    let z: i64 = z + 719_468;
    let era: i64 = if z >= 0 {
        z / 146_097
    } else {
        (z - 146_096) / 146_097
    };
    assert(era == z as int / 146_097);
    let doe: u64 = (z - era * 146_097) as u64;
    let yoe: u64 = (doe - doe / 1460 + doe / 36524 - doe / 146_096) / 365;
    proof {
        lemma_year_of_era(doe as int, yoe as int);
    }
    let y: i64 = yoe as i64 + era * 400;
    let doy: u64 = doe - (365 * yoe + yoe / 4 - yoe / 100);
    proof {
        lemma_in_era(y as int, era as int, yoe as int);
        lemma_month(
            doy as int,
            (5 * doy + 2) / 153,
            doy - (153 * ((5 * doy + 2) / 153) + 2) / 5 + 1,
            y as int,
        );
        lemma_march(y as int);
        lemma_march(y + 1);
    }
    let mp: u64 = (5 * doy + 2) / 153;
    let d: u32 = (doy - (153 * mp + 2) / 5 + 1) as u32;
    let m: u32 = if mp < 10 {
        (mp + 3) as u32
    } else {
        (mp - 9) as u32
    };
    let year: i64 = if m <= 2 {
        y + 1
    } else {
        y
    };
    (year, m, d)
}

proof fn lemma_years_grow(a: int, b: int)
    requires
        a <= b,
    ensures
        days_before_year(a) <= days_before_year(b),
        a < b ==> days_before_year(a) + 365 + leap_day(a) <= days_before_year(b),
    decreases b - a,
{
    if a < b {
        lemma_quotient_steps(a);
        lemma_years_grow(a + 1, b);
    }
}

/// A day has one date.
pub proof fn law_a_day_has_one_date(
    y1: int,
    m1: int,
    d1: int,
    y2: int,
    m2: int,
    d2: int,
    days: int,
)
    requires
        is_date(y1, m1, d1, days),
        is_date(y2, m2, d2, days),
    ensures
        y1 == y2,
        m1 == m2,
        d1 == d2,
{
    if y1 < y2 {
        lemma_years_grow(y1, y2);
    } else if y2 < y1 {
        lemma_years_grow(y2, y1);
    }
}

/// A date and a time of day as an ISO 8601 stamp.
pub open spec fn stamp(y: nat, m: nat, d: nat, second: nat) -> Seq<char> {
    padded(y, 4) + "-"@ + padded(m, 2) + "-"@ + padded(d, 2) + "T"@ + padded(second / 3600, 2)
        + ":"@ + padded((second % 3600) / 60, 2) + ":"@ + padded(second % 60, 2) + "Z"@
}

/// The stamp of a moment given in seconds since 1 January 1970.
pub fn now_iso(secs: u64) -> (r: String)
    ensures
        exists|y: nat, m: nat, d: nat|
            is_date(y as int, m as int, d as int, secs as int / 86_400) && r@ == #[trigger] stamp(
                y,
                m,
                d,
                secs as nat % 86_400,
            ),
{
    let days: u64 = secs / 86_400;
    let rem: u64 = secs % 86_400;
    let (y, m, d) = civil_from_days(days as i64);
    proof {
        if y < 1 {
            lemma_years_grow(y as int, 1);
            lemma_years_grow(1, 2);
            assert(days_before_year(1) == 0);
            assert(days_before_year(y as int) + 365 + leap_day(y as int) <= 0);
        }
    }
    let mut out = four_digits(y as u64);
    out.append("-");
    out.append(two_digits(m as u64).as_str());
    out.append("-");
    out.append(two_digits(d as u64).as_str());
    out.append("T");
    out.append(two_digits(rem / 3600).as_str());
    out.append(":");
    out.append(two_digits((rem % 3600) / 60).as_str());
    out.append(":");
    out.append(two_digits(rem % 60).as_str());
    out.append("Z");
    assert(out@ == stamp(y as nat, m as nat, d as nat, rem as nat));
    out
}

// ---------------------------------------------------------------------------
// Laws on names and dates
// ---------------------------------------------------------------------------

/// A file `changelog from daily <a> to <b>.md` leads to the build `<b>`, with or without
/// blanks round it, whatever `<a>` is; a name without that beginning or that ending
/// leads nowhere.
pub proof fn law_which_build_a_changelog_leads_to(
    name: Seq<char>,
    from: Seq<char>,
    front: Seq<char>,
    build: u32,
    back: Seq<char>,
)
    requires
        !from.contains(' '),
        forall|i: int| 0 <= i < front.len() ==> crate::text::is_white(#[trigger] front[i]),
        forall|i: int| 0 <= i < back.len() ==> crate::text::is_white(#[trigger] back[i]),
    ensures
        name == "changelog from daily "@ + (from + " to "@ + (front + crate::text::decimal(
            build as nat,
        ) + back)) + ".md"@ ==> changelog_target(name) == Some(build as nat),
        !"changelog from daily "@.is_prefix_of(name) || !".md"@.is_suffix_of(name)
            ==> changelog_target(name) is None,
{
    let head = "changelog from daily "@;
    let md = ".md"@;
    let to = " to "@;
    reveal_strlit(" to ");
    reveal_strlit(".md");
    reveal_strlit("changelog from daily ");
    let number = crate::text::decimal(build as nat);
    let last = front + number + back;
    let rest = from + to + last;
    if name == head + rest + md {
        assert(name =~= head + (rest + md));
        crate::text::law_stripping(rest + md, head);
        crate::text::law_stripping(rest, md);
        assert forall|j: int| 0 <= j < from.len() implies #[trigger] rest.subrange(
            j,
            j + to.len(),
        ) != to by {
            assert(rest.subrange(j, j + to.len())[0] == from[j]);
            assert(from.contains(from[j]));
            assert(to[0] == ' ');
        }
        crate::text::law_cutting_at_a_text(from, to, last);
        crate::text::lemma_parse_decimal(build as nat, u32::MAX as nat);
        crate::text::lemma_decimal_reads_back(build as nat);
        crate::text::law_white_space(number[0]);
        crate::text::law_white_space(number.last());
        crate::text::law_trimming(front, number, back);
    }
    if !md.is_suffix_of(name) && head.is_prefix_of(name) {
        let tail = name.skip(head.len() as int);
        if md.is_suffix_of(tail) {
            assert(tail.subrange(tail.len() - 3, tail.len() as int) =~= name.subrange(
                name.len() - 3,
                name.len() as int,
            ));
        }
    }
}

/// How many days a month has.
pub open spec fn days_in(y: int, m: int) -> int {
    if m == 2 {
        if y % 4 == 0 && (y % 100 != 0 || y % 400 == 0) {
            29
        } else {
            28
        }
    } else if m == 4 || m == 6 || m == 9 || m == 11 {
        30
    } else {
        31
    }
}

/// The count of days starts with 1 January 1970, and each day is followed by the next
/// one of the calendar: the next of the month, the first of the next month behind the
/// last of one, and New Year behind the last of December.
pub proof fn law_days_follow_the_calendar(y: int, m: int, d: int, days: int)
    ensures
        is_date(1970, 1, 1, 0),
        is_date(y, m, d, days) ==> 1 <= m <= 12 && 1 <= d <= days_in(y, m),
        is_date(y, m, d, days) && d < days_in(y, m) ==> is_date(y, m, d + 1, days + 1),
        is_date(y, m, d, days) && d == days_in(y, m) && m < 12 ==> is_date(y, m + 1, 1, days + 1),
        is_date(y, m, d, days) && d == days_in(y, m) && m == 12 ==> is_date(y + 1, 1, 1, days + 1),
{
    lemma_quotient_steps(y);
}

/// A stamp gives the date and then the time of day in hours, minutes and seconds, each
/// with its zeros in front.
pub proof fn law_what_a_stamp_says(
    y: nat,
    m: nat,
    d: nat,
    hours: nat,
    minutes: nat,
    seconds: nat,
)
    requires
        minutes < 60,
        seconds < 60,
    ensures
        stamp(y, m, d, hours * 3600 + minutes * 60 + seconds) == padded(y, 4) + "-"@ + padded(m, 2)
            + "-"@ + padded(d, 2) + "T"@ + padded(hours, 2) + ":"@ + padded(minutes, 2) + ":"@
            + padded(seconds, 2) + "Z"@,
        y < 10000 ==> padded(y, 4).len() == 4,
        seconds < 60 ==> padded(seconds, 2).len() == 2,
        parse_nat(padded(y, 4), y) == Some(y),
{
    let second = hours * 3600 + minutes * 60 + seconds;
    assert(second / 3600 == hours);
    assert(second % 3600 == minutes * 60 + seconds);
    assert((minutes * 60 + seconds) / 60 == minutes as int);
    assert(second % 60 == seconds) by {
        assert(second == (hours * 60 + minutes) * 60 + seconds);
    }
    crate::text::law_padding(y, 4);
    crate::text::law_padding(seconds, 2);
    crate::text::law_padding_width(y, seconds);
}

/// The state of an instance says which build it is on; its changelogs count only where
/// the state does not.
pub proof fn law_which_build_an_instance_is_on(
    state: InstanceState,
    from_changelogs: Option<u32>,
    r: Option<u32>,
)
    requires
        call_ensures(installed_build, (&state, from_changelogs), r),
    ensures
        state.build is Some ==> r == state.build,
        state.build is None ==> r == from_changelogs,
{
}

/// The state after an update names the artifact that was installed, the time and the
/// instance that was updated.
pub proof fn law_what_an_update_leaves_behind(
    artifact: DailyArtifact,
    now: String,
    from: Option<String>,
    r: InstanceState,
)
    requires
        call_ensures(InstanceState::updated, (&artifact, now, from), r),
    ensures
        r.build == Some(artifact.build),
        r.date is Some && r.date->0@ == artifact.date@,
        r.variant is Some && r.variant->0@ == artifact.variant@,
        r.artifact_id == Some(artifact.id),
        r.updated_at == Some(now),
        r.updated_from == from,
{
}

/// What the updater keeps of an instance lies in a directory of its own in it.
pub proof fn law_where_the_state_is_kept(dir: &str, a: String, b: String, c: String)
    requires
        call_ensures(state_dir, (dir,), a),
        call_ensures(base_zip, (dir,), b),
        call_ensures(state_path, (dir,), c),
    ensures
        a@ == path_in(dir@, ".gtnh-updater"@),
        b@ == path_in(path_in(dir@, ".gtnh-updater"@), "base.zip"@),
        c@ == path_in(path_in(dir@, ".gtnh-updater"@), "state.json"@),
{
}

/// The build that the changelogs tell is the highest that one of them leads to.
pub proof fn law_what_the_changelogs_tell(names: Vec<String>, r: Option<u32>)
    requires
        call_ensures(detect_build_from_changelogs, (&names,), r),
    ensures
        r is Some <==> exists|i: int|
            0 <= i < names.len() && changelog_target((#[trigger] names@[i])@) is Some,
        r matches Some(n) ==> (exists|i: int|
            0 <= i < names.len() && changelog_target((#[trigger] names@[i])@) == Some(n as nat))
            && forall|i: int|
            0 <= i < names.len() ==> (changelog_target((#[trigger] names@[i])@) matches Some(k)
                ==> k <= n),
{
    let all = texts(names@);
    law_detected_build_is_the_highest(all);
    if exists|i: int| 0 <= i < all.len() && changelog_target(#[trigger] all[i]) is Some {
        let i = choose|i: int| 0 <= i < all.len() && changelog_target(#[trigger] all[i]) is Some;
        assert(changelog_target(names@[i]@) is Some);
    }
    if let Some(n) = r {
        let i = choose|i: int|
            0 <= i < all.len() && changelog_target(#[trigger] all[i]) == Some(n as nat);
        assert(changelog_target(names@[i]@) == Some(n as nat));
        assert forall|i: int| 0 <= i < names.len() implies (changelog_target(
            (#[trigger] names@[i])@,
        ) matches Some(k) ==> k <= n) by {
            assert(all[i] == names@[i]@);
        }
    }
    assert forall|i: int|
        0 <= i < names.len() && changelog_target((#[trigger] names@[i])@) is Some implies r is Some by {
        assert(changelog_target(all[i]) is Some);
    }
}

/// A day has the date that the calendar gives it.
pub proof fn law_which_date_a_day_has(z: i64, r: (i64, u32, u32), y: int, m: int, d: int)
    requires
        call_ensures(civil_from_days, (z,), r),
        is_date(y, m, d, z as int),
    ensures
        r.0 == y && r.1 == m && r.2 == d,
{
    law_a_day_has_one_date(r.0 as int, r.1 as int, r.2 as int, y, m, d, z as int);
}

} // verus!
