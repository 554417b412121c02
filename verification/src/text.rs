//! Text as sequences of characters: searching, splitting, trimming, numbers
//! and ordering.
//!
//! Every executable function here is stated against a definition on
//! `Seq<char>`; the modules above speak of those definitions only.
use vstd::prelude::*;
use vstd::string::*;
use vstd::utf8::*;

verus! {

/// `String::push` puts one character behind the text that is there. It does not
/// return where that takes more than `isize::MAX` bytes, and no character takes
/// less than one.
pub assume_specification[ String::push ](s: &mut String, c: char)
    ensures
        final(s)@ == old(s)@.push(c),
        final(s)@.len() <= isize::MAX,
;

// ---------------------------------------------------------------------------
// Definitions
// ---------------------------------------------------------------------------

/// The characters with Unicode's `White_Space` property.
pub open spec fn is_white(c: char) -> bool {
    ||| 0x9 <= c as u32 <= 0xd
    ||| c as u32 == 0x20
    ||| c as u32 == 0x85
    ||| c as u32 == 0xa0
    ||| c as u32 == 0x1680
    ||| 0x2000 <= c as u32 <= 0x200a
    ||| c as u32 == 0x2028
    ||| c as u32 == 0x2029
    ||| c as u32 == 0x202f
    ||| c as u32 == 0x205f
    ||| c as u32 == 0x3000
}

pub open spec fn is_digit(c: char) -> bool {
    '0' <= c <= '9'
}

/// The text without its leading white space.
pub open spec fn trim_start(s: Seq<char>) -> Seq<char>
    decreases s.len(),
{
    if s.len() > 0 && is_white(s[0]) {
        trim_start(s.skip(1))
    } else {
        s
    }
}

/// The text without its trailing white space.
pub open spec fn trim_end(s: Seq<char>) -> Seq<char>
    decreases s.len(),
{
    if s.len() > 0 && is_white(s.last()) {
        trim_end(s.drop_last())
    } else {
        s
    }
}

pub open spec fn trim(s: Seq<char>) -> Seq<char> {
    trim_end(trim_start(s))
}

/// Position of the first `c` at or behind `from`; the length if there is none.
pub open spec fn find_from(s: Seq<char>, c: char, from: int) -> int
    decreases s.len() - from,
{
    if from >= s.len() {
        s.len() as int
    } else if s[from] == c {
        from
    } else {
        find_from(s, c, from + 1)
    }
}

pub open spec fn find(s: Seq<char>, c: char) -> int {
    find_from(s, c, 0)
}

/// What stands before and behind the first `c`.
pub open spec fn split_once(s: Seq<char>, c: char) -> Option<(Seq<char>, Seq<char>)> {
    if find(s, c) < s.len() {
        Some((s.take(find(s, c)), s.skip(find(s, c) + 1)))
    } else {
        None
    }
}

/// Where the needle stands first at or behind `from`.
pub open spec fn text_from_at(s: Seq<char>, needle: Seq<char>, from: int) -> Option<int>
    decreases s.len() + 1 - from,
{
    if from < 0 || from + needle.len() > s.len() {
        None
    } else if s.subrange(from, from + needle.len()) == needle {
        Some(from)
    } else {
        text_from_at(s, needle, from + 1)
    }
}

/// What stands before and behind the first `sep`.
pub open spec fn split_at_text(s: Seq<char>, sep: Seq<char>) -> Option<(Seq<char>, Seq<char>)> {
    match text_from_at(s, sep, 0) {
        Some(i) => Some((s.take(i), s.skip(i + sep.len()))),
        None => None,
    }
}

/// What is left behind the prefix `p`.
pub open spec fn strip_prefix(s: Seq<char>, p: Seq<char>) -> Option<Seq<char>> {
    if p.is_prefix_of(s) {
        Some(s.skip(p.len() as int))
    } else {
        None
    }
}

/// What is left before the suffix `p`.
pub open spec fn strip_suffix(s: Seq<char>, p: Seq<char>) -> Option<Seq<char>> {
    if p.is_suffix_of(s) {
        Some(s.take(s.len() - p.len()))
    } else {
        None
    }
}

/// The place of the last `c`; -1 if there is none.
pub open spec fn find_last(s: Seq<char>, c: char) -> int
    decreases s.len(),
{
    if s.len() == 0 {
        -1
    } else if s.last() == c {
        s.len() - 1
    } else {
        find_last(s.drop_last(), c)
    }
}

/// What stands in front of the last `c` and what behind it.
pub open spec fn rsplit_once(s: Seq<char>, c: char) -> Option<(Seq<char>, Seq<char>)> {
    let k = find_last(s, c);
    if k >= 0 {
        Some((s.take(k), s.skip(k + 1)))
    } else {
        None
    }
}

/// The pieces between the separators `c`: one more piece than separators.
pub open spec fn split(s: Seq<char>, c: char) -> Seq<Seq<char>>
    decreases s.len(),
{
    if 0 <= find(s, c) < s.len() {
        seq![s.take(find(s, c))] + split(s.skip(find(s, c) + 1), c)
    } else {
        seq![s]
    }
}

/// The lines of a text, each with its line feed.
pub open spec fn lines_inclusive(s: Seq<char>) -> Seq<Seq<char>>
    decreases s.len(),
{
    if s.len() == 0 {
        Seq::empty()
    } else if 0 <= find(s, '\n') < s.len() {
        seq![s.take(find(s, '\n') + 1)] + lines_inclusive(s.skip(find(s, '\n') + 1))
    } else {
        seq![s]
    }
}

/// A line without its line ending, which is a line feed or a carriage return
/// and a line feed.
pub open spec fn chomp(line: Seq<char>) -> Seq<char> {
    if line.len() > 0 && line.last() == '\n' {
        if line.len() > 1 && line[line.len() - 2] == '\r' {
            line.take(line.len() - 2)
        } else {
            line.drop_last()
        }
    } else {
        line
    }
}

/// The lines of a text, without their line endings.
pub open spec fn lines(s: Seq<char>) -> Seq<Seq<char>> {
    lines_inclusive(s).map_values(|l: Seq<char>| chomp(l))
}

/// The pieces in order, with `sep` between each two.
pub open spec fn join(parts: Seq<Seq<char>>, sep: Seq<char>) -> Seq<char>
    decreases parts.len(),
{
    if parts.len() == 0 {
        Seq::empty()
    } else if parts.len() == 1 {
        parts[0]
    } else {
        join(parts.drop_last(), sep) + sep + parts.last()
    }
}

/// `a` stands before `b` in the order of the code points.
pub open spec fn before(a: Seq<char>, b: Seq<char>) -> bool
    decreases a.len(),
{
    if b.len() == 0 {
        false
    } else if a.len() == 0 {
        true
    } else if a[0] == b[0] {
        before(a.skip(1), b.skip(1))
    } else {
        a[0] < b[0]
    }
}

pub open spec fn digit_char(d: nat) -> char {
    (48 + d) as char
}

/// `n` in decimal.
pub open spec fn decimal(n: nat) -> Seq<char>
    decreases n,
{
    if n < 10 {
        seq![digit_char(n)]
    } else {
        decimal(n / 10).push(digit_char(n % 10))
    }
}

/// `n` in decimal, with zeros in front up to `width` digits.
pub open spec fn padded(n: nat, width: nat) -> Seq<char> {
    if decimal(n).len() >= width {
        decimal(n)
    } else {
        Seq::new((width - decimal(n).len()) as nat, |i: int| '0') + decimal(n)
    }
}

/// The number that a sequence of digits stands for.
pub open spec fn digits_value(s: Seq<char>) -> nat
    decreases s.len(),
{
    if s.len() == 0 {
        0
    } else {
        digits_value(s.drop_last()) * 10 + ((s.last() as u32 - 48) as nat)
    }
}

pub open spec fn all_digits(s: Seq<char>) -> bool {
    forall|i: int| 0 <= i < s.len() ==> is_digit(#[trigger] s[i])
}

/// An unsigned decimal number of at most `max`: an optional `+`, then one or
/// more digits.
pub open spec fn parse_nat(s: Seq<char>, max: nat) -> Option<nat> {
    let digits = if s.len() > 0 && s[0] == '+' {
        s.skip(1)
    } else {
        s
    };
    if digits.len() > 0 && all_digits(digits) && digits_value(digits) <= max {
        Some(digits_value(digits))
    } else {
        None
    }
}

/// The views of a list of texts.
pub open spec fn texts(v: Seq<String>) -> Seq<Seq<char>> {
    v.map_values(|s: String| s@)
}

// ---------------------------------------------------------------------------
// Between strings and characters
// ---------------------------------------------------------------------------

pub(crate) fn chars_of(s: &str) -> (r: Vec<char>)
    ensures
        r@ == s@,
{
    let mut out: Vec<char> = Vec::new();
    for c in it: s.chars()
        invariant
            out@ == it.seq().take(it.index() as int),
            it.seq() == s@,
    {
        out.push(c);
    }
    out
}

pub(crate) fn string_of(v: &Vec<char>, from: usize, to: usize) -> (r: String)
    requires
        from <= to <= v.len(),
    ensures
        r@ == v@.subrange(from as int, to as int),
        r@.len() <= isize::MAX,
{
    let mut out = String::new();
    let mut i: usize = from;
    while i < to
        invariant
            from <= i <= to <= v.len(),
            out@ == v@.subrange(from as int, i as int),
            out@.len() <= isize::MAX,
        decreases to - i,
    {
        out.push(v[i]);
        i += 1;
    }
    out
}

pub(crate) fn text_from(v: &Vec<char>) -> (r: String)
    ensures
        r@ == v@,
{
    string_of(v, 0, v.len())
}

// ---------------------------------------------------------------------------
// Facts about the definitions
// ---------------------------------------------------------------------------

/// `find_from` gives the least position that holds `c`.
pub proof fn lemma_find(s: Seq<char>, c: char, from: int)
    requires
        0 <= from <= s.len(),
    ensures
        from <= find_from(s, c, from) <= s.len(),
        find_from(s, c, from) < s.len() ==> s[find_from(s, c, from)] == c,
        forall|j: int| from <= j < find_from(s, c, from) ==> s[j] != c,
    decreases s.len() - from,
{
    if from < s.len() && s[from] != c {
        lemma_find(s, c, from + 1);
    }
}

/// The least position that holds `c` is what `find_from` gives.
pub proof fn lemma_find_is(s: Seq<char>, c: char, from: int, at: int)
    requires
        0 <= from <= at <= s.len(),
        at < s.len() ==> s[at] == c,
        forall|j: int| from <= j < at ==> s[j] != c,
    ensures
        find_from(s, c, from) == at,
    decreases s.len() - from,
{
    if from < at {
        lemma_find_is(s, c, from + 1, at);
    }
}

/// Searching behind `k` is searching in what is left behind `k`.
pub proof fn lemma_find_skip(s: Seq<char>, c: char, k: int, from: int)
    requires
        0 <= k,
        0 <= from,
        k + from <= s.len(),
    ensures
        find_from(s.skip(k), c, from) + k == find_from(s, c, k + from),
    decreases s.len() - k - from,
{
    if k + from < s.len() && s[k + from] != c {
        lemma_find_skip(s, c, k, from + 1);
    }
}

/// A text that is empty or ends its last line.
pub open spec fn ends_line(s: Seq<char>) -> bool {
    s.len() == 0 || s.last() == '\n'
}

/// Texts one behind the other.
pub open spec fn run_on(parts: Seq<Seq<char>>) -> Seq<char>
    decreases parts.len(),
{
    if parts.len() == 0 {
        Seq::empty()
    } else {
        run_on(parts.drop_last()) + parts.last()
    }
}

pub proof fn lemma_run_on_concat(a: Seq<Seq<char>>, b: Seq<Seq<char>>)
    ensures
        run_on(a + b) == run_on(a) + run_on(b),
    decreases b.len(),
{
    if b.len() == 0 {
        assert(a + b =~= a);
    } else {
        lemma_run_on_concat(a, b.drop_last());
        assert((a + b).drop_last() =~= a + b.drop_last());
    }
}

/// The lines of two texts are the lines of the one and then those of the other,
/// where the first ends its last line.
pub proof fn lemma_lines_concat(x: Seq<char>, y: Seq<char>)
    requires
        ends_line(x),
    ensures
        lines_inclusive(x + y) == lines_inclusive(x) + lines_inclusive(y),
    decreases x.len(),
{
    if x.len() == 0 {
        assert(x + y =~= y);
        assert(lines_inclusive(x) + lines_inclusive(y) =~= lines_inclusive(y));
    } else {
        let k = find(x, '\n');
        lemma_find(x, '\n', 0);
        if k == x.len() {
            assert(x[x.len() - 1] == '\n');
        }
        assert forall|j: int| 0 <= j < k implies (x + y)[j] != '\n' by {
            assert((x + y)[j] == x[j]);
        }
        lemma_find_is(x + y, '\n', 0, k);
        assert((x + y).take(k + 1) =~= x.take(k + 1));
        assert((x + y).skip(k + 1) =~= x.skip(k + 1) + y);
        lemma_lines_concat(x.skip(k + 1), y);
        assert(lines_inclusive(x + y) =~= seq![x.take(k + 1)] + (lines_inclusive(x.skip(k + 1))
            + lines_inclusive(y)));
        assert(lines_inclusive(x) + lines_inclusive(y) =~= seq![x.take(k + 1)] + (
        lines_inclusive(x.skip(k + 1)) + lines_inclusive(y)));
    }
}

/// A line feed at the end and nowhere else makes one line.
pub proof fn lemma_single_line(x: Seq<char>)
    requires
        x.len() > 0,
        x.last() == '\n',
        forall|j: int| 0 <= j < x.len() - 1 ==> x[j] != '\n',
    ensures
        lines_inclusive(x) == seq![x],
{
    lemma_find_is(x, '\n', 0, x.len() - 1);
    assert(x.take(x.len() as int) =~= x);
    assert(lines_inclusive(x.skip(x.len() as int)) =~= Seq::empty());
    assert(lines_inclusive(x) =~= seq![x]);
}

/// The lines of a text make up the text.
pub proof fn lemma_lines_run_on(s: Seq<char>)
    ensures
        run_on(lines_inclusive(s)) == s,
    decreases s.len(),
{
    if s.len() > 0 {
        let k = find(s, '\n');
        lemma_find(s, '\n', 0);
        reveal_with_fuel(run_on, 2);
        if k < s.len() {
            lemma_lines_run_on(s.skip(k + 1));
            lemma_run_on_concat(seq![s.take(k + 1)], lines_inclusive(s.skip(k + 1)));
            assert(seq![s.take(k + 1)].drop_last() =~= Seq::empty());
            assert(s =~= s.take(k + 1) + s.skip(k + 1));
            assert(run_on(seq![s.take(k + 1)]) =~= s.take(k + 1));
        } else {
            assert(seq![s].drop_last() =~= Seq::empty());
            assert(run_on(seq![s]) =~= s);
        }
    }
}

/// A trimmed text stands in the text it comes from, and has no white space at
/// its ends.
pub proof fn lemma_trim(s: Seq<char>)
    ensures
        exists|a: int, b: int| 0 <= a <= b <= s.len() && trim(s) == #[trigger] s.subrange(a, b),
        trim(s).len() > 0 ==> !is_white(trim(s)[0]) && !is_white(trim(s).last()),
        s.len() > 0 && !is_white(s[0]) ==> trim(s).len() > 0 && trim(s)[0] == s[0],
        trim(trim(s)) == trim(s),
{
    lemma_trim_start(s);
    let m = trim_start(s);
    lemma_trim_end(m);
    let a = s.len() - m.len();
    let b = a + trim(s).len();
    assert(trim(s) =~= s.subrange(a, b));
    if trim(s).len() > 0 {
        assert(trim(s)[0] == m[0]);
        assert(trim_start(trim(s)) == trim(s));
        assert(trim_end(trim(s)) == trim(s));
    }
}

proof fn lemma_trim_start(s: Seq<char>)
    ensures
        trim_start(s).len() <= s.len(),
        trim_start(s) == s.skip(s.len() - trim_start(s).len()),
        trim_start(s).len() > 0 ==> !is_white(trim_start(s)[0]),
    decreases s.len(),
{
    if s.len() > 0 && is_white(s[0]) {
        lemma_trim_start(s.skip(1));
        assert(trim_start(s) =~= s.skip(s.len() - trim_start(s).len()));
    } else {
        assert(s =~= s.skip(0));
    }
}

proof fn lemma_trim_end(s: Seq<char>)
    ensures
        trim_end(s).len() <= s.len(),
        trim_end(s) == s.take(trim_end(s).len() as int),
        trim_end(s).len() > 0 ==> !is_white(trim_end(s).last()),
        s.len() > 0 && !is_white(s[0]) ==> trim_end(s).len() > 0,
    decreases s.len(),
{
    if s.len() > 0 && is_white(s.last()) {
        lemma_trim_end(s.drop_last());
        assert(trim_end(s) =~= s.take(trim_end(s).len() as int));
        if !is_white(s[0]) {
            assert(s.len() > 1);
            assert(s.drop_last()[0] == s[0]);
        }
    } else {
        assert(s =~= s.take(s.len() as int));
    }
}

/// A text without white space at its ends is trimmed.
pub proof fn lemma_trimmed(s: Seq<char>)
    requires
        s.len() > 0,
        !is_white(s[0]),
        !is_white(s.last()),
    ensures
        trim(s) == s,
{
}

/// No line holds a line feed.
pub proof fn lemma_lines_have_no_feed(s: Seq<char>)
    ensures
        forall|i: int| 0 <= i < lines(s).len() ==> !(#[trigger] lines(s)[i]).contains('\n'),
    decreases s.len(),
{
    if s.len() > 0 {
        let k = find(s, '\n');
        lemma_find(s, '\n', 0);
        if k < s.len() {
            let rest = s.skip(k + 1);
            lemma_lines_have_no_feed(rest);
            assert forall|i: int| 0 <= i < lines(s).len() implies !(#[trigger] lines(s)[i]).contains(
                '\n',
            ) by {
                if i == 0 {
                    let line = s.take(k + 1);
                    assert(lines(s)[0] == chomp(line));
                    if chomp(line).contains('\n') {
                        let j = chomp(line).index_of('\n');
                        assert(chomp(line)[j] == s[j]);
                    }
                } else {
                    assert(lines(s)[i] == lines(rest)[i - 1]);
                }
            }
        } else {
            assert(lines(s) =~= seq![chomp(s)]);
            assert(s.last() == s[s.len() - 1]);
        }
    }
}

/// Texts without line feeds, each written on a line of its own, are the lines of
/// what is written.
pub proof fn lemma_written_lines(parts: Seq<Seq<char>>)
    requires
        forall|i: int|
            0 <= i < parts.len() ==> !(#[trigger] parts[i]).contains('\n') && !(parts[i].len() > 0
                && parts[i].last() == '\r'),
    ensures
        lines(run_on(parts.map_values(|p: Seq<char>| p.push('\n')))) == parts,
        ends_line(run_on(parts.map_values(|p: Seq<char>| p.push('\n')))),
    decreases parts.len(),
{
    let written = parts.map_values(|p: Seq<char>| p.push('\n'));
    if parts.len() > 0 {
        let init = parts.drop_last();
        let short = init.map_values(|p: Seq<char>| p.push('\n'));
        let last = parts.last().push('\n');
        assert(parts.last() == parts[parts.len() - 1]);
        assert forall|i: int| 0 <= i < init.len() implies !(#[trigger] init[i]).contains('\n')
            && !(init[i].len() > 0 && init[i].last() == '\r') by {
            assert(init[i] == parts[i]);
        }
        lemma_written_lines(init);
        assert(written.drop_last() =~= short);
        assert(written.last() == last);
        lemma_lines_concat(run_on(short), last);
        assert forall|j: int| 0 <= j < last.len() - 1 implies last[j] != '\n' by {
            assert(last[j] == parts.last()[j]);
            assert(parts.last().contains(parts.last()[j]));
        }
        lemma_single_line(last);
        if parts.last().len() > 0 {
            assert(last[last.len() - 2] == parts.last().last());
        }
        assert(chomp(last) =~= parts.last());
        assert(lines(run_on(written)) =~= lines(run_on(short)).push(parts.last()));
        assert(parts =~= init.push(parts.last()));
    } else {
        assert(lines(run_on(written)) =~= parts);
    }
}

/// A line with its line ending: a line feed. A line that itself ends in a carriage
/// return gets another one, as the first would be taken for part of the ending.
pub open spec fn line_ended(line: Seq<char>) -> Seq<char> {
    if line.len() > 0 && line.last() == '\r' {
        line.push('\r').push('\n')
    } else {
        line.push('\n')
    }
}

/// The lines one behind the other, each ended.
pub open spec fn written_lines(parts: Seq<Seq<char>>) -> Seq<char> {
    run_on(parts.map_values(|p: Seq<char>| line_ended(p)))
}

/// Lines that are written are the lines of what is written, whatever they hold
/// but line feeds.
pub proof fn lemma_lines_written(parts: Seq<Seq<char>>)
    requires
        forall|i: int| 0 <= i < parts.len() ==> !(#[trigger] parts[i]).contains('\n'),
    ensures
        lines(written_lines(parts)) == parts,
        ends_line(written_lines(parts)),
    decreases parts.len(),
{
    let written = parts.map_values(|p: Seq<char>| line_ended(p));
    if parts.len() > 0 {
        let init = parts.drop_last();
        let short = init.map_values(|p: Seq<char>| line_ended(p));
        let part = parts[parts.len() - 1];
        let last = line_ended(part);
        assert forall|i: int| 0 <= i < init.len() implies !(#[trigger] init[i]).contains('\n') by {
            assert(init[i] == parts[i]);
        }
        lemma_lines_written(init);
        assert(written.drop_last() =~= short);
        assert(written.last() == last);
        lemma_lines_concat(run_on(short), last);
        assert forall|j: int| 0 <= j < last.len() - 1 implies last[j] != '\n' by {
            if j < part.len() {
                assert(last[j] == part[j]);
                assert(part.contains(part[j]));
            }
        }
        lemma_single_line(last);
        if part.len() > 0 {
            assert(last[part.len() - 1] == part.last());
        }
        assert(chomp(last) =~= part);
        assert(lines(run_on(written)) =~= lines(run_on(short)).push(part));
        assert(parts =~= init.push(part));
    } else {
        assert(lines(run_on(written)) =~= parts);
    }
}

// ---------------------------------------------------------------------------
// Searching and cutting
// ---------------------------------------------------------------------------

/// Whether a character has the `White_Space` property.
pub fn is_white_space(c: char) -> (r: bool)
    ensures
        r == is_white(c),
{
    let u: u32 = c as u32;
    (0x9 <= u && u <= 0xd) || u == 0x20 || u == 0x85 || u == 0xa0 || u == 0x1680 || (0x2000 <= u
        && u <= 0x200a) || u == 0x2028 || u == 0x2029 || u == 0x202f || u == 0x205f || u == 0x3000
}

pub(crate) fn find_char(v: &Vec<char>, c: char, from: usize) -> (r: usize)
    requires
        from <= v.len(),
    ensures
        r == find_from(v@, c, from as int),
        from <= r <= v.len(),
        r < v.len() ==> v@[r as int] == c,
        forall|j: int| from <= j < r ==> v@[j] != c,
{
    let mut i: usize = from;
    while i < v.len() && v[i] != c
        invariant
            from <= i <= v.len(),
            forall|j: int| from <= j < i ==> v@[j] != c,
        decreases v.len() - i,
    {
        i += 1;
    }
    proof {
        lemma_find_is(v@, c, from as int, i as int);
    }
    i
}

/// The bounds of the text without white space around it.
fn trim_bounds(v: &Vec<char>) -> (r: (usize, usize))
    ensures
        r.0 <= r.1 <= v.len(),
        v@.subrange(r.0 as int, r.1 as int) == trim(v@),
{
    let mut a: usize = 0;
    assert(v@.skip(0) =~= v@);
    while a < v.len() && is_white_space(v[a])
        invariant
            a <= v.len(),
            trim_start(v@) == trim_start(v@.skip(a as int)),
        decreases v.len() - a,
    {
        assert(v@.skip(a as int).skip(1) =~= v@.skip(a + 1));
        a += 1;
    }
    let mut b: usize = v.len();
    assert(v@.subrange(a as int, b as int) =~= v@.skip(a as int));
    while b > a && is_white_space(v[b - 1])
        invariant
            a <= b <= v.len(),
            trim(v@) == trim_end(v@.subrange(a as int, b as int)),
        decreases b,
    {
        assert(v@.subrange(a as int, b as int).drop_last() =~= v@.subrange(a as int, b - 1));
        b -= 1;
    }
    (a, b)
}

pub(crate) fn trimmed(s: &str) -> (r: String)
    ensures
        r@ == trim(s@),
{
    let v = chars_of(s);
    let (a, b) = trim_bounds(&v);
    string_of(&v, a, b)
}

pub(crate) fn same(a: &str, b: &str) -> (r: bool)
    ensures
        r == (a@ == b@),
{
    let x = chars_of(a);
    let y = chars_of(b);
    if x.len() != y.len() {
        return false;
    }
    let mut i: usize = 0;
    while i < x.len()
        invariant
            x.len() == y.len(),
            x@ == a@,
            y@ == b@,
            i <= x.len(),
            forall|j: int| 0 <= j < i ==> x@[j] == y@[j],
        decreases x.len() - i,
    {
        if x[i] != y[i] {
            return false;
        }
        i += 1;
    }
    assert(a@ =~= b@);
    true
}

/// Whether `p` stands in `v` from position `at` on.
fn stands_at(v: &Vec<char>, p: &Vec<char>, at: usize) -> (r: bool)
    requires
        at + p.len() <= v.len(),
    ensures
        r == (v@.subrange(at as int, at + p.len()) == p@),
{
    let mut i: usize = 0;
    while i < p.len()
        invariant
            at + p.len() <= v.len(),
            i <= p.len(),
            forall|j: int| 0 <= j < i ==> v@[at + j] == p@[j],
        decreases p.len() - i,
    {
        if v[at + i] != p[i] {
            proof {
                assert(v@.subrange(at as int, at + p.len())[i as int] != p@[i as int]);
            }
            return false;
        }
        i += 1;
    }
    assert(v@.subrange(at as int, at + p.len()) =~= p@);
    true
}

pub(crate) fn starts_with(s: &str, p: &str) -> (r: bool)
    ensures
        r == p@.is_prefix_of(s@),
{
    let v = chars_of(s);
    let q = chars_of(p);
    q.len() <= v.len() && stands_at(&v, &q, 0)
}

pub(crate) fn ends_with(s: &str, p: &str) -> (r: bool)
    ensures
        r == p@.is_suffix_of(s@),
{
    let v = chars_of(s);
    let q = chars_of(p);
    q.len() <= v.len() && stands_at(&v, &q, v.len() - q.len())
}

pub(crate) fn without_prefix(s: &str, p: &str) -> (r: Option<String>)
    ensures
        r is Some <==> strip_prefix(s@, p@) is Some,
        r matches Some(t) ==> strip_prefix(s@, p@) == Some(t@),
{
    if starts_with(s, p) {
        let v = chars_of(s);
        let q = chars_of(p);
        assert(s@.subrange(p@.len() as int, s@.len() as int) =~= s@.skip(p@.len() as int));
        Some(string_of(&v, q.len(), v.len()))
    } else {
        None
    }
}

pub(crate) fn without_suffix(s: &str, p: &str) -> (r: Option<String>)
    ensures
        r is Some <==> strip_suffix(s@, p@) is Some,
        r matches Some(t) ==> strip_suffix(s@, p@) == Some(t@),
{
    if ends_with(s, p) {
        let v = chars_of(s);
        let q = chars_of(p);
        assert(s@.subrange(0, s@.len() - p@.len()) =~= s@.take(s@.len() - p@.len()));
        Some(string_of(&v, 0, v.len() - q.len()))
    } else {
        None
    }
}

pub(crate) fn cut_once(s: &str, c: char) -> (r: Option<(String, String)>)
    ensures
        r is Some <==> split_once(s@, c) is Some,
        r matches Some((a, b)) ==> split_once(s@, c) == Some((a@, b@)),
{
    let v = chars_of(s);
    let k = find_char(&v, c, 0);
    if k < v.len() {
        assert(s@.subrange(0, k as int) =~= s@.take(k as int));
        assert(s@.subrange(k + 1, s@.len() as int) =~= s@.skip(k + 1));
        Some((string_of(&v, 0, k), string_of(&v, k + 1, v.len())))
    } else {
        None
    }
}

pub proof fn lemma_find_last(s: Seq<char>, c: char)
    ensures
        -1 <= find_last(s, c) < s.len(),
        find_last(s, c) >= 0 ==> s[find_last(s, c)] == c,
        forall|j: int| find_last(s, c) < j < s.len() ==> #[trigger] s[j] != c,
    decreases s.len(),
{
    if s.len() > 0 && s.last() != c {
        let init = s.drop_last();
        lemma_find_last(init, c);
        assert forall|j: int| find_last(s, c) < j < s.len() implies #[trigger] s[j] != c by {
            if j < init.len() {
                assert(init[j] == s[j]);
            }
        }
    }
}

/// A separator with none behind it is the last.
pub proof fn lemma_rsplit(a: Seq<char>, c: char, b: Seq<char>)
    requires
        !b.contains(c),
    ensures
        rsplit_once(a.push(c) + b, c) == Some((a, b)),
    decreases b.len(),
{
    let s = a.push(c) + b;
    if b.len() > 0 {
        let short = b.drop_last();
        assert(b.last() == b[b.len() - 1]);
        assert(s.last() == b.last());
        assert(s.drop_last() =~= a.push(c) + short);
        if short.contains(c) {
            assert(b[short.index_of(c)] == c);
        }
        lemma_rsplit(a, c, short);
        lemma_find_last(s.drop_last(), c);
        let k = find_last(s.drop_last(), c);
        assert(s.drop_last().take(k) =~= a);
        assert(k == a.len()) by {
            assert(s.drop_last().take(k).len() == k);
        }
        assert(s.take(k) =~= a);
        assert(s.skip(k + 1) =~= b);
    } else {
        assert(s =~= a.push(c));
        assert(s.last() == c);
        assert(s.take(s.len() - 1) =~= a);
        assert(s.skip(s.len() as int) =~= b);
    }
}

pub(crate) fn cut_last(s: &str, c: char) -> (r: Option<(String, String)>)
    ensures
        r is Some <==> rsplit_once(s@, c) is Some,
        r matches Some((a, b)) ==> rsplit_once(s@, c) == Some((a@, b@)),
{
    let v = chars_of(s);
    let mut n: usize = v.len();
    assert(s@.take(n as int) =~= s@);
    while n > 0
        invariant
            v@ == s@,
            n <= v.len(),
            find_last(s@, c) == find_last(s@.take(n as int), c),
        decreases n,
    {
        assert(s@.take(n as int).last() == s@[n - 1]);
        assert(s@.take(n as int).drop_last() =~= s@.take(n - 1));
        if v[n - 1] == c {
            assert(s@.subrange(0, n - 1) =~= s@.take(n - 1));
            assert(s@.subrange(n as int, s@.len() as int) =~= s@.skip(n as int));
            return Some((string_of(&v, 0, n - 1), string_of(&v, n, v.len())));
        }
        n -= 1;
    }
    None
}

pub(crate) fn cut_at_text(s: &str, sep: &str) -> (r: Option<(String, String)>)
    ensures
        r is Some <==> split_at_text(s@, sep@) is Some,
        r matches Some((a, b)) ==> split_at_text(s@, sep@) == Some((a@, b@)),
{
    let v = chars_of(s);
    let q = chars_of(sep);
    let mut i: usize = 0;
    while q.len() <= v.len() - i
        invariant
            v@ == s@,
            q@ == sep@,
            i <= v.len(),
            text_from_at(s@, sep@, 0) == text_from_at(s@, sep@, i as int),
        decreases v.len() + 1 - i,
    {
        if stands_at(&v, &q, i) {
            assert(s@.subrange(0, i as int) =~= s@.take(i as int));
            assert(s@.subrange(i + sep@.len(), s@.len() as int) =~= s@.skip(i + sep@.len()));
            return Some((string_of(&v, 0, i), string_of(&v, i + q.len(), v.len())));
        }
        if i == v.len() {
            assert(text_from_at(s@, sep@, i + 1) is None);
            return None;
        }
        i += 1;
    }
    None
}

/// The needle stands somewhere in the text.
pub open spec fn occurs(s: Seq<char>, needle: Seq<char>) -> bool {
    exists|i: int|
        0 <= i <= s.len() - needle.len() && #[trigger] s.subrange(i, i + needle.len()) == needle
}

pub(crate) fn contains(s: &str, needle: &str) -> (r: bool)
    ensures
        r == occurs(s@, needle@),
{
    let v = chars_of(s);
    let q = chars_of(needle);
    if q.len() > v.len() {
        return false;
    }
    let last: usize = v.len() - q.len();
    let mut i: usize = 0;
    loop
        invariant
            v@ == s@,
            q@ == needle@,
            last + q.len() == v.len(),
            i <= last,
            forall|j: int| 0 <= j < i ==> #[trigger] s@.subrange(j, j + q.len()) != needle@,
        decreases last - i,
    {
        if stands_at(&v, &q, i) {
            return true;
        }
        if i == last {
            return false;
        }
        i += 1;
    }
}

/// The pieces of a text between its separators.
pub(crate) fn pieces(s: &str, c: char) -> (r: Vec<String>)
    ensures
        texts(r@) == split(s@, c),
{
    let v = chars_of(s);
    let mut out: Vec<String> = Vec::new();
    let mut from: usize = 0;
    assert(s@.skip(0) =~= s@);
    loop
        invariant
            v@ == s@,
            from <= v.len(),
            texts(out@) + split(s@.skip(from as int), c) == split(s@, c),
        decreases v.len() - from,
    {
        let k = find_char(&v, c, from);
        let ghost rest = s@.skip(from as int);
        let ghost before_push = out@;
        proof {
            lemma_find_skip(s@, c, from as int, 0);
        }
        out.push(string_of(&v, from, k));
        assert(s@.subrange(from as int, k as int) =~= rest.take(k - from));
        assert(texts(out@) =~= texts(before_push).push(rest.take(k - from)));
        if k == v.len() {
            assert(rest.take(k - from) =~= rest);
            assert(texts(before_push) + seq![rest] =~= texts(out@));
            return out;
        }
        proof {
            assert(rest.skip(k - from + 1) =~= s@.skip(k + 1));
            assert(split(rest, c) == seq![rest.take(k - from)] + split(s@.skip(k + 1), c));
            assert(texts(before_push) + split(rest, c) =~= texts(out@) + split(s@.skip(k + 1), c));
        }
        from = k + 1;
    }
}

/// The lines of a text with their line feeds.
pub(crate) fn full_lines(s: &str) -> (r: Vec<String>)
    ensures
        texts(r@) == lines_inclusive(s@),
        forall|i: int| 0 <= i < r.len() ==> (#[trigger] r@[i])@.len() <= isize::MAX,
{
    let v = chars_of(s);
    let mut out: Vec<String> = Vec::new();
    let mut from: usize = 0;
    assert(s@.skip(0) =~= s@);
    assert(texts(out@) =~= Seq::empty());
    assert(Seq::<Seq<char>>::empty() + lines_inclusive(s@) =~= lines_inclusive(s@));
    while from < v.len()
        invariant
            v@ == s@,
            from <= v.len(),
            texts(out@) + lines_inclusive(s@.skip(from as int)) == lines_inclusive(s@),
            forall|i: int| 0 <= i < out.len() ==> (#[trigger] out@[i])@.len() <= isize::MAX,
        decreases v.len() - from,
    {
        let k = find_char(&v, '\n', from);
        let ghost rest = s@.skip(from as int);
        let ghost before_push = out@;
        proof {
            lemma_find_skip(s@, '\n', from as int, 0);
        }
        let to: usize = if k < v.len() {
            k + 1
        } else {
            k
        };
        out.push(string_of(&v, from, to));
        proof {
            assert(s@.subrange(from as int, to as int) =~= rest.take(to - from));
            assert(texts(out@) =~= texts(before_push).push(rest.take(to - from)));
            assert(rest.skip(to - from) =~= s@.skip(to as int));
            if k == v.len() {
                assert(rest.take(to - from) =~= rest);
                assert(s@.skip(to as int).len() == 0);
            }
            assert(lines_inclusive(rest) =~= seq![rest.take(to - from)] + lines_inclusive(
                s@.skip(to as int),
            ));
            assert(texts(before_push) + lines_inclusive(rest) =~= texts(out@) + lines_inclusive(
                s@.skip(to as int),
            ));
        }
        from = to;
    }
    proof {
        assert(s@.skip(from as int).len() == 0);
        assert(texts(out@) + Seq::<Seq<char>>::empty() =~= texts(out@));
    }
    out
}

pub(crate) fn chomped(line: &str) -> (r: String)
    ensures
        r@ == chomp(line@),
{
    let v = chars_of(line);
    let n = v.len();
    if n > 0 && v[n - 1] == '\n' {
        if n > 1 && v[n - 2] == '\r' {
            assert(line@.subrange(0, n - 2) =~= line@.take(n - 2));
            string_of(&v, 0, n - 2)
        } else {
            assert(line@.subrange(0, n - 1) =~= line@.drop_last());
            string_of(&v, 0, n - 1)
        }
    } else {
        line.to_owned()
    }
}

/// The lines of a text without their line endings.
pub(crate) fn bare_lines(s: &str) -> (r: Vec<String>)
    ensures
        texts(r@) == lines(s@),
{
    let full = full_lines(s);
    let mut out: Vec<String> = Vec::new();
    let mut i: usize = 0;
    while i < full.len()
        invariant
            texts(full@) == lines_inclusive(s@),
            i <= full.len(),
            out.len() == i,
            forall|j: int| 0 <= j < i ==> #[trigger] out@[j]@ == chomp(full@[j]@),
        decreases full.len() - i,
    {
        out.push(chomped(full[i].as_str()));
        i += 1;
    }
    proof {
        assert forall|j: int| 0 <= j < full.len() implies full@[j]@ == #[trigger] lines_inclusive(
            s@,
        )[j] by {
            assert(texts(full@)[j] == full@[j]@);
        }
        assert(texts(out@) =~= lines(s@));
    }
    out
}

pub(crate) fn joined(parts: &Vec<String>, sep: &str) -> (r: String)
    ensures
        r@ == join(texts(parts@), sep@),
{
    let mut out = String::new();
    let mut i: usize = 0;
    assert(texts(parts@).take(0) =~= Seq::empty());
    while i < parts.len()
        invariant
            i <= parts.len(),
            out@ == join(texts(parts@).take(i as int), sep@),
        decreases parts.len() - i,
    {
        proof {
            assert(texts(parts@).take(i + 1).drop_last() =~= texts(parts@).take(i as int));
            assert(texts(parts@).take(i + 1).last() == parts@[i as int]@);
        }
        if i > 0 {
            out.append(sep);
        }
        out.append(parts[i].as_str());
        i += 1;
    }
    assert(texts(parts@).take(i as int) =~= texts(parts@));
    out
}

pub(crate) fn is_before(a: &str, b: &str) -> (r: bool)
    ensures
        r == before(a@, b@),
{
    let x = chars_of(a);
    let y = chars_of(b);
    let mut i: usize = 0;
    assert(a@.skip(0) =~= a@);
    assert(b@.skip(0) =~= b@);
    while i < x.len() && i < y.len() && x[i] == y[i]
        invariant
            x@ == a@,
            y@ == b@,
            i <= x.len(),
            i <= y.len(),
            before(a@, b@) == before(a@.skip(i as int), b@.skip(i as int)),
        decreases x.len() - i,
    {
        assert(a@.skip(i as int).skip(1) =~= a@.skip(i + 1));
        assert(b@.skip(i as int).skip(1) =~= b@.skip(i + 1));
        i += 1;
    }
    if i >= y.len() {
        false
    } else if i >= x.len() {
        true
    } else {
        x[i] < y[i]
    }
}

// ---------------------------------------------------------------------------
// Numbers
// ---------------------------------------------------------------------------

pub(crate) fn decimal_of(n: u64) -> (r: String)
    ensures
        r@ == decimal(n as nat),
    decreases n,
{
    let d: u8 = 48 + (n % 10) as u8;
    if n < 10 {
        let mut out = String::new();
        out.push(d as char);
        out
    } else {
        let mut out = decimal_of(n / 10);
        out.push(d as char);
        out
    }
}

/// `n` in decimal with at least two digits.
pub(crate) fn two_digits(n: u64) -> (r: String)
    ensures
        r@ == padded(n as nat, 2),
{
    if n < 10 {
        let mut out = String::new();
        out.push('0');
        out.append(decimal_of(n).as_str());
        assert(out@ =~= padded(n as nat, 2));
        out
    } else {
        proof {
            lemma_decimal_width(n as nat);
        }
        decimal_of(n)
    }
}

/// `n` in decimal with at least four digits.
pub(crate) fn four_digits(n: u64) -> (r: String)
    ensures
        r@ == padded(n as nat, 4),
{
    proof {
        lemma_decimal_width(n as nat);
    }
    let tail = decimal_of(n);
    let mut out = String::new();
    if n < 10 {
        out.append("000");
        proof {
            reveal_strlit("000");
        }
    } else if n < 100 {
        out.append("00");
        proof {
            reveal_strlit("00");
        }
    } else if n < 1000 {
        out.append("0");
        proof {
            reveal_strlit("0");
        }
    }
    out.append(tail.as_str());
    assert(out@ =~= padded(n as nat, 4));
    out
}

/// How many digits the small numbers have.
proof fn lemma_decimal_width(n: nat)
    ensures
        n < 10 ==> decimal(n).len() == 1,
        10 <= n < 100 ==> decimal(n).len() == 2,
        100 <= n < 1000 ==> decimal(n).len() == 3,
        n >= 10 ==> decimal(n).len() >= 2,
        n >= 1000 ==> decimal(n).len() >= 4,
    decreases n,
{
    if n >= 10 {
        lemma_decimal_width(n / 10);
    }
}

/// Digits in front only add to what a number stands for.
proof fn lemma_digits_grow(s: Seq<char>, i: int)
    requires
        0 <= i <= s.len(),
        all_digits(s),
    ensures
        digits_value(s.take(i)) <= digits_value(s),
    decreases s.len() - i,
{
    if i < s.len() {
        lemma_digits_grow(s, i + 1);
        assert(s.take(i + 1).drop_last() =~= s.take(i));
        assert(is_digit(s[i]));
    } else {
        assert(s.take(i) =~= s);
    }
}

/// What is written in decimal reads back as the same number.
pub proof fn lemma_decimal_reads_back(n: nat)
    ensures
        decimal(n).len() > 0,
        all_digits(decimal(n)),
        digits_value(decimal(n)) == n,
    decreases n,
{
    reveal_with_fuel(digits_value, 2);
    if n < 10 {
        assert(decimal(n).drop_last() =~= Seq::empty());
    } else {
        lemma_decimal_reads_back(n / 10);
        assert(decimal(n).drop_last() =~= decimal(n / 10));
        assert forall|i: int| 0 <= i < decimal(n).len() implies is_digit(#[trigger] decimal(n)[i]) by {
            if i < decimal(n / 10).len() {
                assert(is_digit(decimal(n / 10)[i]));
            }
        }
    }
}

/// A number in decimal parses to itself.
pub proof fn lemma_parse_decimal(n: nat, max: nat)
    requires
        n <= max,
    ensures
        parse_nat(decimal(n), max) == Some(n),
{
    lemma_decimal_reads_back(n);
    assert(is_digit(decimal(n)[0]));
}

pub(crate) fn number_in(s: &str, max: u64) -> (r: Option<u64>)
    ensures
        r is Some <==> parse_nat(s@, max as nat) is Some,
        r matches Some(n) ==> parse_nat(s@, max as nat) == Some(n as nat),
        r matches Some(n) ==> n <= max,
{
    let v = chars_of(s);
    let from: usize = if v.len() > 0 && v[0] == '+' {
        1
    } else {
        0
    };
    let ghost digits = s@.skip(from as int);
    assert(from == 0 ==> digits =~= s@);
    if from == v.len() {
        return None;
    }
    let mut acc: u64 = 0;
    let mut i: usize = from;
    assert(digits.take(0) =~= Seq::empty());
    while i < v.len()
        invariant
            v@ == s@,
            from <= i <= v.len(),
            from <= 1,
            digits == s@.skip(from as int),
            digits.len() > 0,
            from == (if s@.len() > 0 && s@[0] == '+' {
                1int
            } else {
                0int
            }),
            from == 0 ==> digits == s@,
            acc <= max,
            acc == digits_value(digits.take(i - from)),
            forall|j: int| 0 <= j < i - from ==> is_digit(#[trigger] digits[j]),
        decreases v.len() - i,
    {
        let c: char = v[i];
        assert(digits[i - from] == c);
        if !('0' <= c && c <= '9') {
            assert(!all_digits(digits));
            return None;
        }
        let next: u128 = acc as u128 * 10 + (c as u32 - 48) as u128;
        proof {
            assert(digits.take(i - from + 1).drop_last() =~= digits.take(i - from));
            assert(digits.take(i - from + 1).last() == c);
        }
        if next > max as u128 {
            proof {
                if all_digits(digits) {
                    lemma_digits_grow(digits, i - from + 1);
                }
            }
            return None;
        }
        acc = next as u64;
        i += 1;
    }
    assert(digits.take(i - from) =~= digits);
    Some(acc)
}

pub(crate) fn u32_in(s: &str) -> (r: Option<u32>)
    ensures
        r is Some <==> parse_nat(s@, u32::MAX as nat) is Some,
        r matches Some(n) ==> parse_nat(s@, u32::MAX as nat) == Some(n as nat),
{
    match number_in(s, u32::MAX as u64) {
        Some(n) => Some(n as u32),
        None => None,
    }
}

pub(crate) fn u64_in(s: &str) -> (r: Option<u64>)
    ensures
        r is Some <==> parse_nat(s@, u64::MAX as nat) is Some,
        r matches Some(n) ==> parse_nat(s@, u64::MAX as nat) == Some(n as nat),
{
    number_in(s, u64::MAX)
}

// ---------------------------------------------------------------------------
// Case and encoding
// ---------------------------------------------------------------------------

/// The text that `str::to_lowercase` gives for a text.
pub uninterp spec fn lowercase(s: Seq<char>) -> Seq<char>;

pub open spec fn ascii_lower(c: char) -> char {
    if 'A' <= c <= 'Z' {
        (c as u32 + 32) as char
    } else {
        c
    }
}

/// `str::to_lowercase` depends on the text alone. On a text of ASCII characters
/// it maps the capital letters and leaves the rest; what it does with the other
/// alphabets is not stated.
pub assume_specification[ str::to_lowercase ](s: &str) -> (r: String)
    ensures
        r@ == lowercase(s@),
        is_ascii_chars(s@) ==> r@ == s@.map_values(|c: char| ascii_lower(c)),
;

/// `std::str::from_utf8` accepts the well-formed UTF-8 and gives the text that
/// it encodes.
#[verifier::external_body]
pub(crate) fn utf8_text(bytes: &[u8]) -> (r: Option<String>)
    ensures
        r is Some <==> valid_utf8(bytes@),
        r matches Some(t) ==> t@ == decode_utf8(bytes@),
{
    std::str::from_utf8(bytes).ok().map(|t| t.to_owned())
}

// ---------------------------------------------------------------------------
// Laws
// ---------------------------------------------------------------------------

/// The white space of Unicode, one by one.
pub proof fn law_white_space(c: char)
    ensures
        is_white(c) <==> (c == '\t' || c == '\n' || c == '\u{b}' || c == '\u{c}' || c == '\r' || c
            == ' ' || c == '\u{85}' || c == '\u{a0}' || c == '\u{1680}' || '\u{2000}' <= c
            <= '\u{200a}' || c == '\u{2028}' || c == '\u{2029}' || c == '\u{202f}' || c
            == '\u{205f}' || c == '\u{3000}'),
{
}

proof fn lemma_trim_start_off(front: Seq<char>, s: Seq<char>)
    requires
        forall|i: int| 0 <= i < front.len() ==> is_white(#[trigger] front[i]),
    ensures
        trim_start(front + s) == trim_start(s),
    decreases front.len(),
{
    if front.len() > 0 {
        assert((front + s)[0] == front[0]);
        assert((front + s).skip(1) =~= front.skip(1) + s);
        assert forall|i: int| 0 <= i < front.skip(1).len() implies is_white(
            #[trigger] front.skip(1)[i],
        ) by {
            assert(is_white(front[i + 1]));
        }
        lemma_trim_start_off(front.skip(1), s);
    } else {
        assert(front + s =~= s);
    }
}

proof fn lemma_trim_end_off(s: Seq<char>, back: Seq<char>)
    requires
        forall|i: int| 0 <= i < back.len() ==> is_white(#[trigger] back[i]),
    ensures
        trim_end(s + back) == trim_end(s),
    decreases back.len(),
{
    if back.len() > 0 {
        assert((s + back).last() == back[back.len() - 1]);
        assert((s + back).drop_last() =~= s + back.drop_last());
        assert forall|i: int| 0 <= i < back.drop_last().len() implies is_white(
            #[trigger] back.drop_last()[i],
        ) by {
            assert(is_white(back[i]));
        }
        lemma_trim_end_off(s, back.drop_last());
    } else {
        assert(s + back =~= s);
    }
}

/// Trimming takes the white space off both ends, all of it and nothing else.
pub proof fn law_trimming(front: Seq<char>, middle: Seq<char>, back: Seq<char>)
    requires
        forall|i: int| 0 <= i < front.len() ==> is_white(#[trigger] front[i]),
        forall|i: int| 0 <= i < back.len() ==> is_white(#[trigger] back[i]),
        middle.len() > 0 ==> !is_white(middle[0]) && !is_white(middle.last()),
    ensures
        trim(front + middle + back) == middle,
{
    let none: Seq<char> = Seq::empty();
    assert(front + middle + back =~= front + (middle + back));
    lemma_trim_start_off(front, middle + back);
    if middle.len() > 0 {
        assert((middle + back)[0] == middle[0]);
        lemma_trim_end_off(middle, back);
    } else {
        assert(middle + back =~= back + none);
        lemma_trim_start_off(back, none);
        assert(middle =~= none);
    }
}

/// Cutting at the first of a character: what stands in front of it holds none.
pub proof fn law_cutting_at_the_first(a: Seq<char>, c: char, b: Seq<char>)
    ensures
        !a.contains(c) ==> split_once(a + seq![c] + b, c) == Some((a, b)),
        !a.contains(c) ==> split_once(a, c) is None,
        !b.contains(c) ==> rsplit_once(a + seq![c] + b, c) == Some((a, b)),
        !b.contains(c) ==> rsplit_once(b, c) is None,
{
    let s = a + seq![c] + b;
    let n = a.len() as int;
    if !a.contains(c) {
        assert forall|j: int| 0 <= j < n implies s[j] != c && a[j] != c by {
            assert(s[j] == a[j]);
            assert(a.contains(a[j]));
        }
        assert(s[n] == c);
        lemma_find_is(s, c, 0, n);
        lemma_find_is(a, c, 0, n);
        assert(s.take(n) =~= a);
        assert(s.skip(n + 1) =~= b);
    }
    if !b.contains(c) {
        lemma_find_last(s, c);
        lemma_find_last(b, c);
        let k = find_last(s, c);
        assert(s[n] == c);
        assert(k == n) by {
            if k > n {
                assert(s[k] == b[k - n - 1]);
                assert(b.contains(b[k - n - 1]));
            }
        }
        assert(s.take(n) =~= a);
        assert(s.skip(n + 1) =~= b);
        if find_last(b, c) >= 0 {
            assert(b.contains(b[find_last(b, c)]));
        }
    }
}

proof fn lemma_text_from_at(s: Seq<char>, needle: Seq<char>, from: int, at: int)
    requires
        0 <= from <= at,
        at + needle.len() <= s.len(),
        s.subrange(at, at + needle.len()) == needle,
        forall|j: int| from <= j < at ==> #[trigger] s.subrange(j, j + needle.len()) != needle,
    ensures
        text_from_at(s, needle, from) == Some(at),
    decreases at - from,
{
    if from < at {
        assert(s.subrange(from, from + needle.len()) != needle);
        lemma_text_from_at(s, needle, from + 1, at);
    }
}

/// Cutting at the first place where a text stands.
pub proof fn law_cutting_at_a_text(a: Seq<char>, sep: Seq<char>, b: Seq<char>)
    requires
        forall|j: int|
            0 <= j < a.len() ==> #[trigger] (a + sep + b).subrange(j, j + sep.len()) != sep,
    ensures
        split_at_text(a + sep + b, sep) == Some((a, b)),
{
    let s = a + sep + b;
    let n = a.len() as int;
    assert(s.subrange(n, n + sep.len()) =~= sep);
    lemma_text_from_at(s, sep, 0, n);
    assert(s.take(n) =~= a);
    assert(s.skip(n + sep.len()) =~= b);
}

/// A prefix or a suffix is taken off where it stands, and only there.
pub proof fn law_stripping(s: Seq<char>, p: Seq<char>)
    ensures
        strip_prefix(p + s, p) == Some(s),
        strip_suffix(s + p, p) == Some(s),
        strip_prefix(s, p) matches Some(rest) ==> s == p + rest,
        strip_suffix(s, p) matches Some(rest) ==> s == rest + p,
{
    assert(p.is_prefix_of(p + s)) by {
        assert((p + s).subrange(0, p.len() as int) =~= p);
    }
    assert((p + s).skip(p.len() as int) =~= s);
    assert(p.is_suffix_of(s + p)) by {
        assert((s + p).subrange(s.len() as int, (s + p).len() as int) =~= p);
    }
    assert((s + p).take(s.len() as int) =~= s);
    if strip_prefix(s, p) is Some {
        assert(s =~= p + s.skip(p.len() as int));
    }
    if strip_suffix(s, p) is Some {
        assert(s =~= s.take(s.len() - p.len()) + p);
    }
}

/// The pieces of a text hold no separator, and with the separator between them they
/// are the text; there is one more of them than separators.
pub proof fn law_pieces_make_up_the_text(s: Seq<char>, c: char)
    ensures
        join(split(s, c), seq![c]) == s,
        split(s, c).len() > 0,
        forall|i: int| 0 <= i < split(s, c).len() ==> !(#[trigger] split(s, c)[i]).contains(c),
    decreases s.len(),
{
    let k = find(s, c);
    lemma_find(s, c, 0);
    if k < s.len() {
        let rest = s.skip(k + 1);
        law_pieces_make_up_the_text(rest, c);
        let head = s.take(k);
        lemma_join_front(head, split(rest, c), seq![c]);
        assert(s =~= head + seq![c] + rest);
        assert forall|i: int| 0 <= i < split(s, c).len() implies !(#[trigger] split(
            s,
            c,
        )[i]).contains(c) by {
            if i == 0 {
                if head.contains(c) {
                    assert(s[head.index_of(c)] == c);
                }
            } else {
                assert(split(s, c)[i] == split(rest, c)[i - 1]);
            }
        }
    } else {
        assert(split(s, c) =~= seq![s]);
        if s.contains(c) {
            assert(s[s.index_of(c)] == c);
        }
    }
}

proof fn lemma_join_front(head: Seq<char>, parts: Seq<Seq<char>>, sep: Seq<char>)
    requires
        parts.len() > 0,
    ensures
        join(seq![head] + parts, sep) == head + sep + join(parts, sep),
    decreases parts.len(),
{
    let all = seq![head] + parts;
    reveal_with_fuel(join, 2);
    if parts.len() == 1 {
        assert(all.drop_last() =~= seq![head]);
        assert(all.last() == parts[0]);
    } else {
        lemma_join_front(head, parts.drop_last(), sep);
        assert(all.drop_last() =~= seq![head] + parts.drop_last());
        assert(all.last() == parts.last());
        assert(join(all, sep) =~= head + sep + join(parts, sep));
    }
}

/// The earlier of two texts is the one with the smaller character where they first
/// differ; a text stands before every longer one that starts with it.
pub proof fn law_the_first_difference_decides(
    front: Seq<char>,
    x: char,
    y: char,
    a: Seq<char>,
    b: Seq<char>,
)
    ensures
        x < y ==> before(front + seq![x] + a, front + seq![y] + b),
        x < y ==> !before(front + seq![y] + b, front + seq![x] + a),
        before(front, front + seq![x] + a),
        !before(front + seq![x] + a, front),
    decreases front.len(),
{
    let s = front + seq![x] + a;
    let t = front + seq![y] + b;
    if front.len() > 0 {
        law_the_first_difference_decides(front.skip(1), x, y, a, b);
        assert(s.skip(1) =~= front.skip(1) + seq![x] + a);
        assert(t.skip(1) =~= front.skip(1) + seq![y] + b);
        assert(s[0] == front[0] && t[0] == front[0]);
    } else {
        assert(s[0] == x && t[0] == y);
    }
}

/// Numbers are read and written in base ten: the digit behind a number adds one
/// place, a plus in front changes nothing, and nothing but digits makes a number.
pub proof fn law_numbers_are_decimal(s: Seq<char>, d: nat, n: nat, max: nat)
    requires
        d < 10,
    ensures
        decimal(n * 10 + d) == (if n == 0 {
            Seq::empty()
        } else {
            decimal(n)
        }).push((('0' as nat) + d) as char),
        n <= max ==> parse_nat(decimal(n), max) == Some(n),
        n > max ==> parse_nat(decimal(n), max) is None,
        s.len() > 0 && s[0] != '+' ==> parse_nat(seq!['+'] + s, max) == parse_nat(s, max),
        parse_nat(s, max) matches Some(v) ==> parse_nat(
            s.push((('0' as nat) + d) as char),
            max,
        ) == (if v * 10 + d <= max {
            Some(v * 10 + d)
        } else {
            None
        }),
        parse_nat(s, max) is Some ==> s.len() > 0 && ('0' <= s[0] <= '9' || (s[0] == '+' && s.len()
            > 1)) && forall|i: int| 0 < i < s.len() ==> '0' <= #[trigger] s[i] <= '9',
        parse_nat(seq![(('0' as nat) + d) as char], max) == (if d <= max {
            Some(d)
        } else {
            None
        }),
{
    let c = (('0' as nat) + d) as char;
    assert((n * 10 + d) / 10 == n && (n * 10 + d) % 10 == d);
    assert(c == digit_char(d));
    assert(c as u32 == 48 + d);
    lemma_decimal_reads_back(n);
    if n == 0 {
        assert(decimal(d) =~= Seq::<char>::empty().push(c));
    }
    let plus = seq!['+'] + s;
    assert(plus.skip(1) =~= s);
    let digits = if s.len() > 0 && s[0] == '+' {
        s.skip(1)
    } else {
        s
    };
    if parse_nat(s, max) is Some {
        let more = s.push(c);
        assert(more[0] == s[0]);
        assert(more.skip(1) =~= s.skip(1).push(c));
        let longer = digits.push(c);
        assert(longer.drop_last() =~= digits);
        assert(all_digits(longer)) by {
            assert forall|i: int| 0 <= i < longer.len() implies is_digit(#[trigger] longer[i]) by {
                if i < digits.len() {
                    assert(is_digit(digits[i]));
                }
            }
        }
        assert forall|i: int| 0 < i < s.len() implies '0' <= #[trigger] s[i] <= '9' by {
            if s[0] == '+' {
                assert(s[i] == digits[i - 1]);
                assert(is_digit(digits[i - 1]));
            } else {
                assert(is_digit(digits[i]));
            }
        }
        assert(is_digit(digits[0]));
    }
    let one = seq![c];
    assert(one.drop_last() =~= Seq::empty());
    reveal_with_fuel(digits_value, 2);
    assert(all_digits(one));
}

/// A line feed ends a line, and a carriage return in front of it goes with it; a
/// last line need not be ended.
pub proof fn law_line_endings(s: Seq<char>, rest: Seq<char>)
    requires
        !s.contains('\n'),
    ensures
        s.len() == 0 || s.last() != '\r' ==> lines(s + seq!['\n'] + rest) == seq![s] + lines(rest),
        lines(s + seq!['\r', '\n'] + rest) == seq![s] + lines(rest),
        s.len() > 0 ==> lines(s) == seq![s],
        lines(Seq::empty()) == Seq::<Seq<char>>::empty(),
{
    let a = s + seq!['\n'];
    let b = s + seq!['\r', '\n'];
    assert forall|j: int| 0 <= j < s.len() implies s[j] != '\n' by {
        assert(s.contains(s[j]));
    }
    assert(a.last() == '\n' && b.last() == '\n');
    lemma_single_line(a);
    lemma_single_line(b);
    lemma_lines_concat(a, rest);
    lemma_lines_concat(b, rest);
    assert(chomp(b) =~= s);
    if s.len() == 0 || s.last() != '\r' {
        if s.len() > 0 {
            assert(a[a.len() - 2] == s.last());
        }
        assert(chomp(a) =~= s);
        assert(lines(a + rest) =~= seq![s] + lines(rest));
    }
    assert(lines(b + rest) =~= seq![s] + lines(rest));
    if s.len() > 0 {
        lemma_find_is(s, '\n', 0, s.len() as int);
        assert(lines_inclusive(s) =~= seq![s]);
        assert(s.last() == s[s.len() - 1]);
        assert(lines(s) =~= seq![s]);
    }
    assert(lines(Seq::empty()) =~= Seq::<Seq<char>>::empty());
}

/// Zeros in front of a number do not change it, and there are as many as it takes.
pub proof fn law_padding(n: nat, width: nat)
    requires
        width > 0,
    ensures
        padded(n, width).len() >= width,
        decimal(n).len() <= width ==> padded(n, width).len() == width,
        parse_nat(padded(n, width), n) == Some(n),
        decimal(n).is_suffix_of(padded(n, width)),
{
    lemma_decimal_reads_back(n);
    lemma_parse_decimal(n, n);
    let d = decimal(n);
    if d.len() < width {
        let k = (width - d.len()) as nat;
        let zeros = Seq::new(k, |i: int| '0');
        lemma_zeros_in_front(k, d);
        assert(all_digits(zeros + d)) by {
            assert forall|i: int| 0 <= i < (zeros + d).len() implies is_digit(
                #[trigger] (zeros + d)[i],
            ) by {
                if i >= k {
                    assert(is_digit(d[i - k]));
                }
            }
        }
        assert((zeros + d)[0] == '0');
        assert((zeros + d).subrange(k as int, (zeros + d).len() as int) =~= d);
    } else {
        assert(d.subrange(0, d.len() as int) =~= d);
    }
}

/// Numbers below ten thousand have at most four digits, and those below a hundred two.
pub proof fn law_padding_width(n: nat, m: nat)
    ensures
        n < 10000 ==> decimal(n).len() <= 4,
        m < 100 ==> decimal(m).len() <= 2,
{
    reveal_with_fuel(decimal, 5);
}

proof fn lemma_zeros_in_front(k: nat, d: Seq<char>)
    ensures
        digits_value(Seq::new(k, |i: int| '0') + d) == digits_value(d),
    decreases d.len(),
{
    let zeros = Seq::new(k, |i: int| '0');
    if d.len() > 0 {
        assert((zeros + d).drop_last() =~= zeros + d.drop_last());
        assert((zeros + d).last() == d.last());
        lemma_zeros_in_front(k, d.drop_last());
    } else {
        assert(zeros + d =~= zeros);
        lemma_zeros_are_nothing(k);
    }
}

proof fn lemma_zeros_are_nothing(k: nat)
    ensures
        digits_value(Seq::new(k, |i: int| '0')) == 0,
    decreases k,
{
    if k > 0 {
        let less = (k - 1) as nat;
        assert(Seq::new(k, |i: int| '0').drop_last() =~= Seq::new(less, |i: int| '0'));
        lemma_zeros_are_nothing(less);
    }
}

/// A text of which nothing is left when it is trimmed holds nothing but white space.
pub proof fn lemma_blank_is_white(s: Seq<char>)
    ensures
        trim(s).len() == 0 ==> forall|i: int| 0 <= i < s.len() ==> is_white(#[trigger] s[i]),
{
    if trim(s).len() == 0 {
        assert forall|i: int| 0 <= i < s.len() implies is_white(#[trigger] s[i]) by {
            if !is_white(s[i]) {
                lemma_trim_keeps(s, i);
            }
        }
    }
}

proof fn lemma_trim_keeps(s: Seq<char>, i: int)
    requires
        0 <= i < s.len(),
        !is_white(s[i]),
    ensures
        trim(s).len() > 0,
    decreases s.len(),
{
    if is_white(s[0]) {
        assert(s.skip(1)[i - 1] == s[i]);
        lemma_trim_keeps(s.skip(1), i - 1);
    } else {
        lemma_trim_end_keeps(s);
    }
}

proof fn lemma_trim_end_keeps(s: Seq<char>)
    requires
        s.len() > 0,
        !is_white(s[0]),
    ensures
        trim_end(s).len() > 0,
    decreases s.len(),
{
    if is_white(s.last()) {
        assert(s.drop_last()[0] == s[0]);
        lemma_trim_end_keeps(s.drop_last());
    }
}

/// Where a text occurs in another one, it stands somewhere in it.
pub proof fn lemma_occurs_at(s: Seq<char>, needle: Seq<char>) -> (i: int)
    requires
        occurs(s, needle),
    ensures
        0 <= i,
        i + needle.len() <= s.len(),
        s.subrange(i, i + needle.len()) == needle,
{
    choose|i: int|
        0 <= i <= s.len() - needle.len() && #[trigger] s.subrange(i, i + needle.len()) == needle
}

/// A text that stands somewhere in another one occurs in it.
pub proof fn lemma_occurs(s: Seq<char>, needle: Seq<char>, i: int)
    requires
        0 <= i,
        i + needle.len() <= s.len(),
        s.subrange(i, i + needle.len()) == needle,
    ensures
        occurs(s, needle),
{
}

/// Lower-casing takes each of the twenty-six capitals to the letter 32 places on, and
/// leaves every other character; doing it again changes nothing.
pub proof fn law_only_capitals_change(c: char)
    ensures
        65 <= c as u32 <= 90 ==> ascii_lower(c) as u32 == c as u32 + 32,
        !(65 <= c as u32 <= 90) ==> ascii_lower(c) == c,
        ascii_lower(ascii_lower(c)) == ascii_lower(c),
{
}

} // verus!
