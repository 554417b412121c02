//! A line-preserving reader and writer for `instance.cfg`.
use vstd::prelude::*;
use vstd::string::*;

use crate::mods::collected;
use crate::text::{
    bare_lines, chars_of, cut_once, line_ended, lines, run_on, same, split_once, string_of, texts,
    trim, trimmed, written_lines,
};

verus! {

/// Keys written before any `[section]` header. Prism writes `instance.cfg`
/// through Qt's QSettings, which files those under `General`, and the pack ships
/// exactly that shape, with no header at all.
pub const DEFAULT_SECTION: &'static str = "General";

// ---------------------------------------------------------------------------
// The file
// ---------------------------------------------------------------------------

/// A line-preserving INI reader/writer. Prism rewrites `instance.cfg` itself, but
/// keeping comments and ordering intact makes diffs between instances readable.
#[derive(Debug, Clone)]
pub struct Ini {
    pub lines: Vec<Line>,
}

/// A header or a setting with the line it was read from, or any other line.
#[derive(Debug, Clone)]
pub enum Line {
    Section { name: String, raw: String },
    Kv { section: String, key: String, value: String, raw: String },
    Other(String),
}

/// A line as texts.
pub enum LineView {
    Section { name: Seq<char>, raw: Seq<char> },
    Kv { section: Seq<char>, key: Seq<char>, value: Seq<char>, raw: Seq<char> },
    Other(Seq<char>),
}

impl View for Line {
    type V = LineView;

    open spec fn view(&self) -> LineView {
        match *self {
            Line::Section { name, raw } => LineView::Section { name: name@, raw: raw@ },
            Line::Kv { section, key, value, raw } => LineView::Kv {
                section: section@,
                key: key@,
                value: value@,
                raw: raw@,
            },
            Line::Other(raw) => LineView::Other(raw@),
        }
    }
}

pub open spec fn line_views(s: Seq<Line>) -> Seq<LineView> {
    s.map_values(|l: Line| l@)
}

impl View for Ini {
    type V = Seq<LineView>;

    open spec fn view(&self) -> Seq<LineView> {
        line_views(self.lines@)
    }
}

impl Default for Ini {
    fn default() -> (r: Self)
        ensures
            r@ == Seq::<LineView>::empty(),
    {
        let r = Ini { lines: Vec::new() };
        assert(r@ =~= Seq::empty());
        r
    }
}

// ---------------------------------------------------------------------------
// Reading
// ---------------------------------------------------------------------------

/// A header between brackets.
pub open spec fn is_header(t: Seq<char>) -> bool {
    t.len() > 0 && t[0] == '[' && t.last() == ']'
}

/// What a line is, in the section it stands in.
pub open spec fn line_of(section: Seq<char>, raw: Seq<char>) -> LineView {
    let t = trim(raw);
    if is_header(t) {
        LineView::Section { name: t.subrange(1, t.len() - 1), raw }
    } else {
        match split_once(t, '=') {
            Some((k, v)) => if t[0] == '#' || t[0] == ';' {
                LineView::Other(raw)
            } else {
                LineView::Kv { section, key: trim(k), value: v, raw }
            },
            None => LineView::Other(raw),
        }
    }
}

/// The section that holds behind these lines.
pub open spec fn section_behind(lines: Seq<LineView>) -> Seq<char>
    decreases lines.len(),
{
    if lines.len() == 0 {
        "General"@
    } else {
        match lines.last() {
            LineView::Section { name, .. } => name,
            _ => section_behind(lines.drop_last()),
        }
    }
}

pub open spec fn ini_lines(raws: Seq<Seq<char>>) -> Seq<LineView>
    decreases raws.len(),
{
    if raws.len() == 0 {
        Seq::empty()
    } else {
        let init = ini_lines(raws.drop_last());
        init.push(line_of(section_behind(init), raws.last()))
    }
}

/// The lines of an INI text.
pub open spec fn ini_of(text: Seq<char>) -> Seq<LineView> {
    ini_lines(lines(text))
}

fn read_line(section: &str, raw: &str) -> (r: Line)
    ensures
        r@ == line_of(section@, raw@),
{
    let t = trimmed(raw);
    let v = chars_of(t.as_str());
    if v.len() > 0 && v[0] == '[' && v[v.len() - 1] == ']' {
        return Line::Section { name: string_of(&v, 1, v.len() - 1), raw: raw.to_owned() };
    }
    match cut_once(t.as_str(), '=') {
        Some((k, value)) => {
            proof {
                crate::text::lemma_find(t@, '=', 0);
            }
            if v[0] == '#' || v[0] == ';' {
                Line::Other(raw.to_owned())
            } else {
                Line::Kv {
                    section: section.to_owned(),
                    key: trimmed(k.as_str()),
                    value,
                    raw: raw.to_owned(),
                }
            }
        },
        None => Line::Other(raw.to_owned()),
    }
}

// ---------------------------------------------------------------------------
// Looking up and changing
// ---------------------------------------------------------------------------

pub open spec fn is_entry(l: LineView, section: Seq<char>, key: Seq<char>) -> bool {
    l matches LineView::Kv { section: s, key: k, .. } && s == section && k == key
}

pub open spec fn in_section(l: LineView, section: Seq<char>) -> bool {
    l matches LineView::Kv { section: s, .. } && s == section
}

/// The first entry for a key at or behind `from`; the number of lines if there
/// is none.
pub open spec fn entry_from(
    lines: Seq<LineView>,
    section: Seq<char>,
    key: Seq<char>,
    from: int,
) -> int
    decreases lines.len() - from,
{
    if from >= lines.len() {
        lines.len() as int
    } else if is_entry(lines[from], section, key) {
        from
    } else {
        entry_from(lines, section, key, from + 1)
    }
}

/// The value of a key: that of its first entry.
pub open spec fn value_of(
    lines: Seq<LineView>,
    section: Seq<char>,
    key: Seq<char>,
) -> Option<Seq<char>> {
    let i = entry_from(lines, section, key, 0);
    if i < lines.len() {
        Some(lines[i]->value)
    } else {
        None
    }
}

/// How many lines there are up to the last entry of a section; none if it has no
/// entry.
pub open spec fn section_end(lines: Seq<LineView>, section: Seq<char>) -> int
    decreases lines.len(),
{
    if lines.len() == 0 {
        0
    } else if in_section(lines.last(), section) {
        lines.len() as int
    } else {
        section_end(lines.drop_last(), section)
    }
}

/// A setting as it is written anew.
pub open spec fn entry_line(section: Seq<char>, key: Seq<char>, value: Seq<char>) -> LineView {
    LineView::Kv { section, key, value, raw: key.push('=') + value }
}

/// A header as it is written anew.
pub open spec fn header_line(section: Seq<char>) -> LineView {
    LineView::Section { name: section, raw: seq!['['] + section + seq![']'] }
}

/// The lines with a key set: in place where the key has an entry, else behind the
/// last entry of the section, else in a section of its own at the end.
pub open spec fn with_value(
    lines: Seq<LineView>,
    section: Seq<char>,
    key: Seq<char>,
    value: Seq<char>,
) -> Seq<LineView> {
    let i = entry_from(lines, section, key, 0);
    let entry = entry_line(section, key, value);
    if i < lines.len() {
        lines.update(i, entry)
    } else if section_end(lines, section) > 0 {
        lines.insert(section_end(lines, section), entry)
    } else {
        lines.push(header_line(section)).push(entry)
    }
}

pub open spec fn key_in(l: LineView, section: Seq<char>) -> Option<Seq<char>> {
    if in_section(l, section) {
        Some(l->key)
    } else {
        None
    }
}

/// The keys of a section, in order.
pub open spec fn keys_of(lines: Seq<LineView>, section: Seq<char>) -> Seq<Seq<char>> {
    collected(lines, |l: LineView| key_in(l, section))
}

/// A line as it is written: as it was read, or as it was set.
pub open spec fn line_text(l: LineView) -> Seq<char> {
    match l {
        LineView::Section { raw, .. } => raw,
        LineView::Kv { raw, .. } => raw,
        LineView::Other(raw) => raw,
    }
}

/// The texts of the lines.
pub open spec fn line_texts(lines: Seq<LineView>) -> Seq<Seq<char>> {
    lines.map_values(|l: LineView| line_text(l))
}

/// The file as it is written, each line ended.
pub open spec fn ini_text(lines: Seq<LineView>) -> Seq<char> {
    written_lines(line_texts(lines))
}

pub proof fn lemma_entry(lines: Seq<LineView>, section: Seq<char>, key: Seq<char>, from: int)
    requires
        0 <= from <= lines.len(),
    ensures
        from <= entry_from(lines, section, key, from) <= lines.len(),
        entry_from(lines, section, key, from) < lines.len() ==> is_entry(
            lines[entry_from(lines, section, key, from)],
            section,
            key,
        ),
        forall|j: int|
            from <= j < entry_from(lines, section, key, from) ==> !is_entry(
                #[trigger] lines[j],
                section,
                key,
            ),
    decreases lines.len() - from,
{
    if from < lines.len() && !is_entry(lines[from], section, key) {
        lemma_entry(lines, section, key, from + 1);
    }
}

proof fn lemma_entry_is(
    lines: Seq<LineView>,
    section: Seq<char>,
    key: Seq<char>,
    from: int,
    at: int,
)
    requires
        0 <= from <= at <= lines.len(),
        at < lines.len() ==> is_entry(lines[at], section, key),
        forall|j: int| from <= j < at ==> !is_entry(#[trigger] lines[j], section, key),
    ensures
        entry_from(lines, section, key, from) == at,
    decreases lines.len() - from,
{
    if from < at {
        lemma_entry_is(lines, section, key, from + 1, at);
    }
}

fn ends_in_return(s: &str) -> (r: bool)
    ensures
        r == (s@.len() > 0 && s@.last() == '\r'),
{
    let v = chars_of(s);
    v.len() > 0 && v[v.len() - 1] == '\r'
}

impl Ini {
    pub fn parse(text: &str) -> (r: Self)
        ensures
            r@ == ini_of(text@),
    {
        let raws = bare_lines(text);
        let ghost all = texts(raws@);
        let mut out: Vec<Line> = Vec::new();
        let mut section = DEFAULT_SECTION.to_owned();
        let mut i: usize = 0;
        proof {
            assert(all.take(0) =~= Seq::empty());
            assert(line_views(out@) =~= Seq::empty());
        }
        while i < raws.len()
            invariant
                all == texts(raws@),
                i <= raws.len(),
                line_views(out@) == ini_lines(all.take(i as int)),
                section@ == section_behind(line_views(out@)),
            decreases raws.len() - i,
        {
            let ghost o0 = line_views(out@);
            let line = read_line(section.as_str(), raws[i].as_str());
            proof {
                assert(all.take(i + 1).drop_last() =~= all.take(i as int));
                assert(all.take(i + 1).last() == raws@[i as int]@);
            }
            if let Line::Section { name, .. } = &line {
                section = name.clone();
            }
            let ghost lv = line@;
            out.push(line);
            proof {
                assert(line_views(out@) =~= o0.push(lv));
                assert(line_views(out@).drop_last() =~= o0);
            }
            i += 1;
        }
        assert(all.take(i as int) =~= all);
        Ini { lines: out }
    }

    /// Where the first entry for a key stands.
    fn find(&self, section: &str, key: &str) -> (r: usize)
        ensures
            r == entry_from(self@, section@, key@, 0),
            r <= self.lines.len(),
            r < self.lines.len() ==> is_entry(self.lines@[r as int]@, section@, key@),
    {
        let mut i: usize = 0;
        while i < self.lines.len()
            invariant
                i <= self.lines.len(),
                forall|j: int| 0 <= j < i ==> !is_entry(#[trigger] self@[j], section@, key@),
            decreases self.lines.len() - i,
        {
            if let Line::Kv { section: s, key: k, .. } = &self.lines[i] {
                if same(s.as_str(), section) && same(k.as_str(), key) {
                    proof {
                        lemma_entry_is(self@, section@, key@, 0, i as int);
                    }
                    return i;
                }
            }
            assert(self@[i as int] == self.lines@[i as int]@);
            i += 1;
        }
        proof {
            lemma_entry_is(self@, section@, key@, 0, i as int);
        }
        i
    }

    pub fn get(&self, section: &str, key: &str) -> (r: Option<String>)
        ensures
            r is Some <==> value_of(self@, section@, key@) is Some,
            r matches Some(v) ==> value_of(self@, section@, key@) == Some(v@),
    {
        let i = self.find(section, key);
        if i < self.lines.len() {
            assert(self@[i as int] == self.lines@[i as int]@);
            if let Line::Kv { value, .. } = &self.lines[i] {
                return Some(value.clone());
            }
        }
        None
    }

    /// How many lines there are up to the last entry of a section.
    fn end_of(&self, section: &str) -> (r: usize)
        ensures
            r == section_end(self@, section@),
            r <= self.lines.len(),
    {
        let mut i: usize = self.lines.len();
        assert(self@.take(i as int) =~= self@);
        while i > 0
            invariant
                i <= self.lines.len(),
                section_end(self@, section@) == section_end(self@.take(i as int), section@),
            decreases i,
        {
            proof {
                assert(self@.take(i as int).last() == self.lines@[i - 1]@);
                assert(self@.take(i as int).drop_last() =~= self@.take(i - 1));
            }
            if let Line::Kv { section: s, .. } = &self.lines[i - 1] {
                if same(s.as_str(), section) {
                    return i;
                }
            }
            i -= 1;
        }
        i
    }

    pub fn set(&mut self, section: &str, key: &str, value: &str)
        ensures
            final(self)@ == with_value(old(self)@, section@, key@, value@),
    {
        let i = self.find(section, key);
        let ghost before = self@;
        let mut raw = key.to_owned();
        raw.push('=');
        raw.append(value);
        let entry = Line::Kv {
            section: section.to_owned(),
            key: key.to_owned(),
            value: value.to_owned(),
            raw,
        };
        let ghost ev = entry@;
        if i < self.lines.len() {
            self.lines[i] = entry;
            assert(self@ =~= before.update(i as int, ev));
            return;
        }
        let end = self.end_of(section);
        if end > 0 {
            self.lines.insert(end, entry);
            assert(self@ =~= before.insert(end as int, ev));
        } else {
            let mut raw = String::new();
            raw.push('[');
            raw.append(section);
            raw.push(']');
            assert(raw@ =~= seq!['['] + section@ + seq![']']);
            self.lines.push(Line::Section { name: section.to_owned(), raw });
            self.lines.push(entry);
            assert(self@ =~= before.push(header_line(section@)).push(ev));
        }
    }

    /// All keys present in a section.
    pub fn keys(&self, section: &str) -> (r: Vec<String>)
        ensures
            texts(r@) == keys_of(self@, section@),
    {
        let mut out: Vec<String> = Vec::new();
        let mut i: usize = 0;
        let ghost f = |l: LineView| key_in(l, section@);
        proof {
            assert(self@.take(0) =~= Seq::empty());
            assert(texts(out@) =~= Seq::empty());
        }
        while i < self.lines.len()
            invariant
                f == (|l: LineView| key_in(l, section@)),
                i <= self.lines.len(),
                texts(out@) == collected(self@.take(i as int), f),
            decreases self.lines.len() - i,
        {
            let ghost o0 = texts(out@);
            proof {
                assert(self@.take(i + 1).drop_last() =~= self@.take(i as int));
                assert(self@.take(i + 1).last() == self.lines@[i as int]@);
            }
            if let Line::Kv { section: s, key, .. } = &self.lines[i] {
                if same(s.as_str(), section) {
                    out.push(key.clone());
                    assert(texts(out@) =~= o0.push(key@));
                }
            }
            i += 1;
        }
        assert(self@.take(i as int) =~= self@);
        out
    }

    /// The file as it is written.
    pub fn to_string(&self) -> (r: String)
        ensures
            r@ == ini_text(self@),
    {
        let mut out = String::new();
        let mut i: usize = 0;
        let ghost pieces = line_texts(self@).map_values(|p: Seq<char>| line_ended(p));
        assert(pieces.take(0) =~= Seq::empty());
        while i < self.lines.len()
            invariant
                pieces == line_texts(self@).map_values(|p: Seq<char>| line_ended(p)),
                i <= self.lines.len(),
                out@ == run_on(pieces.take(i as int)),
            decreases self.lines.len() - i,
        {
            let ghost o0 = out@;
            let raw = match &self.lines[i] {
                Line::Section { raw, .. } => raw.as_str(),
                Line::Kv { raw, .. } => raw.as_str(),
                Line::Other(raw) => raw.as_str(),
            };
            proof {
                assert(raw@ == line_text(self.lines@[i as int]@));
                assert(pieces.take(i + 1).drop_last() =~= pieces.take(i as int));
                assert(pieces.take(i + 1).last() == line_ended(raw@));
            }
            out.append(raw);
            if ends_in_return(raw) {
                out.push('\r');
            }
            out.push('\n');
            assert(out@ =~= o0 + line_ended(raw@));
            i += 1;
        }
        assert(pieces.take(i as int) =~= pieces);
        out
    }

    /// The same lines again.
    pub(crate) fn duplicate(&self) -> (r: Self)
        ensures
            r@ == self@,
    {
        let mut out: Vec<Line> = Vec::new();
        let mut i: usize = 0;
        while i < self.lines.len()
            invariant
                i <= self.lines.len(),
                out.len() == i,
                forall|j: int| 0 <= j < i ==> #[trigger] out@[j]@ == self.lines@[j]@,
            decreases self.lines.len() - i,
        {
            let line = match &self.lines[i] {
                Line::Section { name, raw } => Line::Section {
                    name: name.clone(),
                    raw: raw.clone(),
                },
                Line::Kv { section, key, value, raw } => Line::Kv {
                    section: section.clone(),
                    key: key.clone(),
                    value: value.clone(),
                    raw: raw.clone(),
                },
                Line::Other(raw) => Line::Other(raw.clone()),
            };
            out.push(line);
            i += 1;
        }
        let r = Ini { lines: out };
        assert(r@ =~= self@);
        r
    }
}

// ---------------------------------------------------------------------------
// Laws of the file
// ---------------------------------------------------------------------------

proof fn lemma_insert_keeps(
    lines: Seq<LineView>,
    at: int,
    new: LineView,
    section: Seq<char>,
    key: Seq<char>,
)
    requires
        0 <= at <= lines.len(),
        !is_entry(new, section, key),
    ensures
        value_of(lines.insert(at, new), section, key) == value_of(lines, section, key),
{
    let out = lines.insert(at, new);
    let p = entry_from(lines, section, key, 0);
    lemma_entry(lines, section, key, 0);
    let q = if p < at { p } else { p + 1 };
    assert forall|j: int| 0 <= j < q implies !is_entry(#[trigger] out[j], section, key) by {
        if j < at {
            assert(out[j] == lines[j]);
        } else if j > at {
            assert(out[j] == lines[j - 1]);
        }
    }
    if p == lines.len() {
        lemma_entry_is(out, section, key, 0, out.len() as int);
    } else {
        lemma_entry_is(out, section, key, 0, q);
    }
}

proof fn lemma_section_end(lines: Seq<LineView>, section: Seq<char>)
    ensures
        0 <= section_end(lines, section) <= lines.len(),
    decreases lines.len(),
{
    if lines.len() > 0 {
        lemma_section_end(lines.drop_last(), section);
    }
}

/// What is set is read back, and nothing else changes.
pub proof fn law_set_is_read_back(
    lines: Seq<LineView>,
    section: Seq<char>,
    key: Seq<char>,
    value: Seq<char>,
)
    ensures
        value_of(with_value(lines, section, key, value), section, key) == Some(value),
        forall|s: Seq<char>, k: Seq<char>|
            (s != section || k != key) ==> #[trigger] value_of(
                with_value(lines, section, key, value),
                s,
                k,
            ) == value_of(lines, s, k),
{
    let out = with_value(lines, section, key, value);
    let i = entry_from(lines, section, key, 0);
    let entry = entry_line(section, key, value);
    let end = section_end(lines, section);
    lemma_entry(lines, section, key, 0);
    lemma_section_end(lines, section);
    if i < lines.len() {
        lemma_entry_is(out, section, key, 0, i);
    } else if end > 0 {
        assert forall|j: int| 0 <= j < end implies !is_entry(#[trigger] out[j], section, key) by {
            assert(out[j] == lines[j]);
        }
        lemma_entry_is(out, section, key, 0, end);
    } else {
        assert forall|j: int| 0 <= j < lines.len() + 1 implies !is_entry(
            #[trigger] out[j],
            section,
            key,
        ) by {
            if j < lines.len() {
                assert(out[j] == lines[j]);
            }
        }
        lemma_entry_is(out, section, key, 0, (lines.len() + 1) as int);
    }
    assert forall|s: Seq<char>, k: Seq<char>| (s != section || k != key) implies #[trigger] value_of(
        out,
        s,
        k,
    ) == value_of(lines, s, k) by {
        if i < lines.len() {
            let p = entry_from(lines, s, k, 0);
            lemma_entry(lines, s, k, 0);
            assert forall|j: int| 0 <= j < p implies !is_entry(#[trigger] out[j], s, k) by {
                if j != i {
                    assert(out[j] == lines[j]);
                }
            }
            lemma_entry_is(out, s, k, 0, p);
        } else if end > 0 {
            lemma_insert_keeps(lines, end, entry, s, k);
        } else {
            let head = header_line(section);
            lemma_insert_keeps(lines, lines.len() as int, head, s, k);
            assert(lines.push(head) =~= lines.insert(lines.len() as int, head));
            lemma_insert_keeps(lines.push(head), (lines.len() + 1) as int, entry, s, k);
            assert(out =~= lines.push(head).insert((lines.len() + 1) as int, entry));
        }
    }
}

/// A key that has an entry is replaced in place: the file keeps its lines, and a
/// key is never written a second time.
pub proof fn law_set_replaces_in_place(
    lines: Seq<LineView>,
    section: Seq<char>,
    key: Seq<char>,
    value: Seq<char>,
)
    requires
        value_of(lines, section, key) is Some,
    ensures
        ({
            let out = with_value(lines, section, key, value);
            let i = entry_from(lines, section, key, 0);
            &&& out.len() == lines.len()
            &&& forall|j: int| 0 <= j < lines.len() && j != i ==> #[trigger] out[j] == lines[j]
        }),
{
    lemma_entry(lines, section, key, 0);
}

/// The keys of a section are exactly those that have a value.
pub proof fn law_keys_are_those_with_a_value(
    lines: Seq<LineView>,
    section: Seq<char>,
    key: Seq<char>,
)
    ensures
        keys_of(lines, section).contains(key) <==> value_of(lines, section, key) is Some,
{
    let f = |l: LineView| key_in(l, section);
    assert(keys_of(lines, section) == collected(lines, f));
    crate::mods::lemma_collected(lines, f);
    lemma_entry(lines, section, key, 0);
    let i = entry_from(lines, section, key, 0);
    if i < lines.len() {
        assert(f(lines[i]) == Some(key));
        assert(lines.contains(lines[i]));
        assert(collected(lines, f).contains(key));
    }
    if collected(lines, f).contains(key) {
        let l = choose|l: LineView| lines.contains(l) && #[trigger] f(l) == Some(key);
        let j = lines.index_of(l);
        assert(in_section(lines[j], section));
        assert(is_entry(lines[j], section, key));
    }
}

proof fn lemma_keys_concat(a: Seq<LineView>, b: Seq<LineView>, section: Seq<char>)
    ensures
        keys_of(a + b, section) == keys_of(a, section) + keys_of(b, section),
    decreases b.len(),
{
    if b.len() == 0 {
        assert(a + b =~= a);
        assert(keys_of(a, section) + keys_of(b, section) =~= keys_of(a, section));
    } else {
        lemma_keys_concat(a, b.drop_last(), section);
        assert((a + b).drop_last() =~= a + b.drop_last());
        assert(keys_of(a + b, section) =~= keys_of(a, section) + keys_of(b, section));
    }
}

proof fn lemma_keys_of_one(l: LineView, section: Seq<char>)
    ensures
        keys_of(seq![l], section) == (match key_in(l, section) {
            Some(k) => seq![k],
            None => Seq::empty(),
        }),
{
    reveal_with_fuel(collected, 2);
    assert(seq![l].drop_last() =~= Seq::empty());
    assert(keys_of(seq![l], section) =~= (match key_in(l, section) {
        Some(k) => seq![k],
        None => Seq::empty(),
    }));
}

proof fn lemma_no_keys_behind(lines: Seq<LineView>, section: Seq<char>)
    ensures
        0 <= section_end(lines, section) <= lines.len(),
        keys_of(lines.skip(section_end(lines, section)), section) == Seq::<Seq<char>>::empty(),
    decreases lines.len(),
{
    lemma_section_end(lines, section);
    let end = section_end(lines, section);
    if end == lines.len() {
        assert(lines.skip(end) =~= Seq::empty());
    } else {
        lemma_no_keys_behind(lines.drop_last(), section);
        lemma_section_end(lines.drop_last(), section);
        assert(lines.skip(end).drop_last() =~= lines.drop_last().skip(end));
        assert(lines.skip(end).last() == lines.last());
    }
}

/// Setting a key leaves the keys of its section as they were where it is among
/// them, and else appends it; the keys of other sections never change.
pub proof fn law_setting_appends_or_keeps_the_keys(
    lines: Seq<LineView>,
    section: Seq<char>,
    key: Seq<char>,
    value: Seq<char>,
    other: Seq<char>,
)
    ensures
        keys_of(with_value(lines, section, key, value), other) == (if other == section && !keys_of(
            lines,
            section,
        ).contains(key) {
            keys_of(lines, section).push(key)
        } else {
            keys_of(lines, other)
        }),
{
    let out = with_value(lines, section, key, value);
    let i = entry_from(lines, section, key, 0);
    let entry = entry_line(section, key, value);
    let head = header_line(section);
    let end = section_end(lines, section);
    law_keys_are_those_with_a_value(lines, section, key);
    lemma_entry(lines, section, key, 0);
    lemma_no_keys_behind(lines, section);
    lemma_keys_of_one(entry, other);
    if i < lines.len() {
        let front = lines.take(i);
        let back = lines.skip(i + 1);
        lemma_keys_of_one(lines[i], other);
        lemma_keys_concat(front, seq![lines[i]] + back, other);
        lemma_keys_concat(seq![lines[i]], back, other);
        lemma_keys_concat(front, seq![entry] + back, other);
        lemma_keys_concat(seq![entry], back, other);
        assert(lines =~= front + (seq![lines[i]] + back));
        assert(out =~= front + (seq![entry] + back));
    } else if end > 0 {
        let front = lines.take(end);
        let back = lines.skip(end);
        lemma_keys_concat(front, back, other);
        lemma_keys_concat(front, seq![entry] + back, other);
        lemma_keys_concat(seq![entry], back, other);
        assert(lines =~= front + back);
        assert(out =~= front + (seq![entry] + back));
        if other == section {
            assert(keys_of(out, other) =~= keys_of(lines, other).push(key));
        } else {
            assert(keys_of(out, other) =~= keys_of(lines, other));
        }
    } else {
        lemma_keys_of_one(head, other);
        lemma_keys_concat(seq![head], seq![entry], other);
        lemma_keys_concat(lines, seq![head] + seq![entry], other);
        assert(out =~= lines + (seq![head] + seq![entry]));
        if other == section {
            assert(keys_of(out, other) =~= keys_of(lines, other).push(key));
        } else {
            assert(keys_of(out, other) =~= keys_of(lines, other));
        }
    }
}

/// The lines are what their texts read as.
pub open spec fn reads_back(lines: Seq<LineView>) -> bool {
    ini_lines(line_texts(lines)) == lines && forall|i: int|
        0 <= i < lines.len() ==> !line_text(#[trigger] lines[i]).contains('\n')
}

proof fn lemma_line_kept(section: Seq<char>, raw: Seq<char>)
    ensures
        line_text(line_of(section, raw)) == raw,
{
}

proof fn lemma_raws_kept(raws: Seq<Seq<char>>)
    ensures
        line_texts(ini_lines(raws)) == raws,
    decreases raws.len(),
{
    let all = ini_lines(raws);
    if raws.len() > 0 {
        let init = ini_lines(raws.drop_last());
        lemma_raws_kept(raws.drop_last());
        lemma_line_kept(section_behind(init), raws.last());
        assert(line_texts(all) =~= line_texts(init).push(raws.last()));
        assert(raws =~= raws.drop_last().push(raws.last()));
    } else {
        assert(line_texts(all) =~= raws);
    }
}

proof fn lemma_parsed_reads_back(text: Seq<char>)
    ensures
        reads_back(ini_of(text)),
        line_texts(ini_of(text)) == lines(text),
{
    let raws = lines(text);
    let all = ini_lines(raws);
    crate::text::lemma_lines_have_no_feed(text);
    lemma_raws_kept(raws);
    assert forall|i: int| 0 <= i < all.len() implies !line_text(#[trigger] all[i]).contains('\n') by {
        assert(line_texts(all)[i] == raws[i]);
    }
}

/// Lines that read back survive being written.
proof fn lemma_written_reads_back(all: Seq<LineView>)
    requires
        reads_back(all),
    ensures
        lines(ini_text(all)) == line_texts(all),
        ini_of(ini_text(all)) == all,
{
    let raws = line_texts(all);
    assert forall|i: int| 0 <= i < raws.len() implies !(#[trigger] raws[i]).contains('\n') by {
        assert(raws[i] == line_text(all[i]));
    }
    crate::text::lemma_lines_written(raws);
}

/// A file that is read and written keeps every line as it was: comments, blanks,
/// headers and settings, in their order.
pub proof fn law_lines_are_preserved(text: Seq<char>)
    ensures
        lines(ini_text(ini_of(text))) == lines(text),
{
    lemma_parsed_reads_back(text);
    lemma_written_reads_back(ini_of(text));
}

/// A file that was read and written reads the same again, and is written the
/// same.
pub proof fn law_written_files_read_the_same(text: Seq<char>)
    ensures
        ini_of(ini_text(ini_of(text))) == ini_of(text),
{
    lemma_parsed_reads_back(text);
    lemma_written_reads_back(ini_of(text));
}

/// A comment, a blank line and whatever else is neither a header nor a setting is
/// kept as it stands and yields no key.
pub proof fn law_other_lines_yield_no_key(text: Seq<char>, i: int)
    requires
        0 <= i < lines(text).len(),
        ({
            let t = trim(lines(text)[i]);
            t.len() == 0 || t[0] == '#' || t[0] == ';' || (!is_header(t) && !t.contains('='))
        }),
    ensures
        i < ini_of(text).len(),
        ini_of(text)[i] == LineView::Other(lines(text)[i]),
        forall|section: Seq<char>| key_in(#[trigger] ini_of(text)[i], section) is None,
{
    let raws = lines(text);
    lemma_line_at(raws, i);
    let t = trim(raws[i]);
    crate::text::lemma_find(t, '=', 0);
    if crate::text::find(t, '=') < t.len() {
        assert(t.contains(t[crate::text::find(t, '=')]));
    }
}

/// Every line is read in the section that holds behind the lines in front of it.
proof fn lemma_line_at(raws: Seq<Seq<char>>, i: int)
    requires
        0 <= i < raws.len(),
    ensures
        ini_lines(raws).len() == raws.len(),
        ini_lines(raws)[i] == line_of(section_behind(ini_lines(raws).take(i)), raws[i]),
    decreases raws.len(),
{
    lemma_len(raws);
    let init = ini_lines(raws.drop_last());
    lemma_len(raws.drop_last());
    if i < raws.len() - 1 {
        lemma_line_at(raws.drop_last(), i);
        assert(ini_lines(raws).take(i) =~= init.take(i));
    } else {
        assert(ini_lines(raws).take(i) =~= init);
    }
}

proof fn lemma_len(raws: Seq<Seq<char>>)
    ensures
        ini_lines(raws).len() == raws.len(),
    decreases raws.len(),
{
    if raws.len() > 0 {
        lemma_len(raws.drop_last());
    }
}

/// Lines that are each read as they stand are what their texts read as.
proof fn lemma_lines_are(lines: Seq<LineView>)
    requires
        forall|i: int|
            0 <= i < lines.len() ==> #[trigger] lines[i] == line_of(
                section_behind(lines.take(i)),
                line_text(lines[i]),
            ),
    ensures
        ini_lines(line_texts(lines)) == lines,
    decreases lines.len(),
{
    if lines.len() > 0 {
        let init = lines.drop_last();
        assert forall|i: int| 0 <= i < init.len() implies #[trigger] init[i] == line_of(
            section_behind(init.take(i)),
            line_text(init[i]),
        ) by {
            assert(init[i] == lines[i]);
            assert(init.take(i) =~= lines.take(i));
        }
        lemma_lines_are(init);
        assert(line_texts(lines).drop_last() =~= line_texts(init));
        assert(lines[lines.len() - 1] == lines.last());
        assert(lines.take(lines.len() - 1) =~= init);
        assert(lines =~= init.push(lines.last()));
    } else {
        assert(ini_lines(line_texts(lines)) =~= lines);
    }
}

/// A setting among the lines changes no section behind it.
proof fn lemma_setting_opens_nothing(a: Seq<LineView>, entry: LineView, b: Seq<LineView>)
    requires
        !(entry is Section),
    ensures
        section_behind(a + seq![entry] + b) == section_behind(a + b),
    decreases b.len(),
{
    if b.len() == 0 {
        assert((a + seq![entry] + b).drop_last() =~= a);
        assert(a + b =~= a);
    } else {
        lemma_setting_opens_nothing(a, entry, b.drop_last());
        assert((a + seq![entry] + b).drop_last() =~= a + seq![entry] + b.drop_last());
        assert((a + b).drop_last() =~= a + b.drop_last());
    }
}

/// A key as it can stand in a file.
pub open spec fn plain_key(key: Seq<char>) -> bool {
    &&& key.len() > 0
    &&& trim(key) == key
    &&& !key.contains('=')
    &&& !key.contains('\n')
    &&& key[0] != '#' && key[0] != ';' && key[0] != '['
}

/// A value as it can stand in a file: on one line, with no blank at its end.
pub open spec fn plain_value(value: Seq<char>) -> bool {
    &&& !value.contains('\n')
    &&& value.len() > 0 ==> !crate::text::is_white(value.last())
}

proof fn lemma_entry_reads_back(section: Seq<char>, key: Seq<char>, value: Seq<char>)
    requires
        plain_key(key),
        plain_value(value),
    ensures
        line_of(section, key.push('=') + value) == entry_line(section, key, value),
        !(key.push('=') + value).contains('\n'),
{
    let raw = key.push('=') + value;
    let n = key.len() as int;
    assert(trim(raw) == raw) by {
        assert(!crate::text::is_white(key[0])) by {
            crate::text::lemma_trim(key);
        }
        assert(raw[0] == key[0]);
        assert(raw.last() == if value.len() > 0 {
            value.last()
        } else {
            '='
        });
        crate::text::lemma_trimmed(raw);
    }
    assert forall|j: int| 0 <= j < n implies raw[j] != '=' && raw[j] != '\n' by {
        assert(raw[j] == key[j]);
        assert(key.contains(key[j]));
    }
    assert(raw[n] == '=');
    assert(split_once(raw, '=') == Some((key, value))) by {
        crate::text::lemma_find_is(raw, '=', 0, n);
        assert(raw.take(n) =~= key);
        assert(raw.skip(n + 1) =~= value);
    }
    assert(raw[0] == key[0]);
    assert forall|j: int| 0 <= j < raw.len() implies raw[j] != '\n' by {
        if j > n {
            assert(value.contains(value[j - n - 1]));
            assert(raw[j] == value[j - n - 1]);
        }
    }
}

proof fn lemma_header_reads_back(within: Seq<char>, section: Seq<char>)
    requires
        !section.contains('\n'),
    ensures
        line_of(within, line_text(header_line(section))) == header_line(section),
        !line_text(header_line(section)).contains('\n'),
{
    let raw = seq!['['] + section + seq![']'];
    crate::text::lemma_trimmed(raw);
    assert(raw.subrange(1, raw.len() - 1) =~= section);
    assert forall|j: int| 0 <= j < raw.len() implies raw[j] != '\n' by {
        if 0 < j < raw.len() - 1 {
            assert(section.contains(section[j - 1]));
            assert(raw[j] == section[j - 1]);
        }
    }
}

/// Where lines read back, a setting's section is the one that holds there.
proof fn lemma_section_at(lines: Seq<LineView>, i: int)
    requires
        reads_back(lines),
        0 <= i < lines.len(),
    ensures
        lines[i] == line_of(section_behind(lines.take(i)), line_text(lines[i])),
        lines[i] matches LineView::Kv { section, .. } ==> section == section_behind(lines.take(i)),
{
    lemma_line_at(line_texts(lines), i);
}

/// One setting more, in the section that holds where it stands.
proof fn lemma_inserted_reads_back(lines: Seq<LineView>, at: int, entry: LineView)
    requires
        reads_back(lines),
        0 <= at <= lines.len(),
        entry is Kv,
        line_of(section_behind(lines.take(at)), line_text(entry)) == entry,
        !line_text(entry).contains('\n'),
    ensures
        reads_back(lines.insert(at, entry)),
{
    let out = lines.insert(at, entry);
    assert forall|i: int| 0 <= i < out.len() implies #[trigger] out[i] == line_of(
        section_behind(out.take(i)),
        line_text(out[i]),
    ) && !line_text(out[i]).contains('\n') by {
        if i < at {
            lemma_section_at(lines, i);
            assert(out.take(i) =~= lines.take(i));
            assert(out[i] == lines[i]);
        } else if i == at {
            assert(out.take(i) =~= lines.take(at));
        } else {
            lemma_section_at(lines, i - 1);
            let front = lines.take(at);
            let back = lines.subrange(at, i - 1);
            lemma_setting_opens_nothing(front, entry, back);
            assert(out.take(i) =~= front + seq![entry] + back);
            assert(lines.take(i - 1) =~= front + back);
            assert(out[i] == lines[i - 1]);
        }
    }
    lemma_lines_are(out);
}

proof fn lemma_removed_reads_back(lines: Seq<LineView>, at: int)
    requires
        reads_back(lines),
        0 <= at < lines.len(),
        lines[at] is Kv,
    ensures
        reads_back(lines.remove(at)),
{
    let out = lines.remove(at);
    assert forall|i: int| 0 <= i < out.len() implies #[trigger] out[i] == line_of(
        section_behind(out.take(i)),
        line_text(out[i]),
    ) && !line_text(out[i]).contains('\n') by {
        if i < at {
            lemma_section_at(lines, i);
            assert(out.take(i) =~= lines.take(i));
            assert(out[i] == lines[i]);
        } else {
            lemma_section_at(lines, i + 1);
            let front = lines.take(at);
            let back = lines.subrange(at + 1, i + 1);
            lemma_setting_opens_nothing(front, lines[at], back);
            assert(lines.take(i + 1) =~= front + seq![lines[at]] + back);
            assert(out.take(i) =~= front + back);
            assert(out[i] == lines[i + 1]);
        }
    }
    lemma_lines_are(out);
}

/// Setting a plain value for a plain key keeps lines that read back so.
proof fn lemma_set_reads_back(
    lines: Seq<LineView>,
    section: Seq<char>,
    key: Seq<char>,
    value: Seq<char>,
)
    requires
        reads_back(lines),
        !section.contains('\n'),
        plain_key(key),
        plain_value(value),
    ensures
        reads_back(with_value(lines, section, key, value)),
{
    let out = with_value(lines, section, key, value);
    let i = entry_from(lines, section, key, 0);
    let entry = entry_line(section, key, value);
    let head = header_line(section);
    let end = section_end(lines, section);
    lemma_entry(lines, section, key, 0);
    lemma_entry_reads_back(section, key, value);
    lemma_end_in_section(lines, section);
    if i < lines.len() {
        lemma_section_at(lines, i);
        lemma_removed_reads_back(lines, i);
        let rest = lines.remove(i);
        assert(rest.take(i) =~= lines.take(i));
        lemma_inserted_reads_back(rest, i, entry);
        assert(out =~= rest.insert(i, entry));
    } else if end > 0 {
        lemma_section_at(lines, end - 1);
        assert(lines.take(end).drop_last() =~= lines.take(end - 1));
        assert(lines.take(end).last() == lines[end - 1]);
        lemma_inserted_reads_back(lines, end, entry);
    } else {
        lemma_header_reads_back(section_behind(lines), section);
        let more = lines.push(head);
        assert forall|j: int| 0 <= j < more.len() implies #[trigger] more[j] == line_of(
            section_behind(more.take(j)),
            line_text(more[j]),
        ) && !line_text(more[j]).contains('\n') by {
            if j < lines.len() {
                lemma_section_at(lines, j);
                assert(more.take(j) =~= lines.take(j));
                assert(more[j] == lines[j]);
            } else {
                assert(more.take(j) =~= lines);
            }
        }
        lemma_lines_are(more);
        assert(more.take(more.len() as int) =~= more);
        lemma_inserted_reads_back(more, more.len() as int, entry);
        assert(out =~= more.insert(more.len() as int, entry));
    }
}

proof fn lemma_end_in_section(lines: Seq<LineView>, section: Seq<char>)
    ensures
        0 <= section_end(lines, section) <= lines.len(),
        section_end(lines, section) > 0 ==> in_section(
            lines[section_end(lines, section) - 1],
            section,
        ),
    decreases lines.len(),
{
    if lines.len() > 0 && !in_section(lines.last(), section) {
        lemma_end_in_section(lines.drop_last(), section);
    }
}

/// What is set in a file that was read is read back when the file has been
/// written and read again, and nothing else has changed there.
pub proof fn law_set_survives_writing(
    text: Seq<char>,
    section: Seq<char>,
    key: Seq<char>,
    value: Seq<char>,
)
    requires
        !section.contains('\n'),
        plain_key(key),
        plain_value(value),
    ensures
        ({
            let again = ini_of(ini_text(with_value(ini_of(text), section, key, value)));
            &&& value_of(again, section, key) == Some(value)
            &&& forall|s: Seq<char>, k: Seq<char>|
                (s != section || k != key) ==> #[trigger] value_of(again, s, k) == value_of(
                    ini_of(text),
                    s,
                    k,
                )
        }),
{
    lemma_parsed_reads_back(text);
    lemma_set_reads_back(ini_of(text), section, key, value);
    lemma_written_reads_back(with_value(ini_of(text), section, key, value));
    law_set_is_read_back(ini_of(text), section, key, value);
}

// ---------------------------------------------------------------------------
// Laws on what a file says
// ---------------------------------------------------------------------------

proof fn lemma_same_section(raws: Seq<Seq<char>>, h: int, i: int)
    requires
        0 <= h <= i <= raws.len(),
        forall|j: int|
            h <= j < i ==> {
                let t = trim(#[trigger] raws[j]);
                !(t.len() > 0 && t[0] == '[' && t.last() == ']')
            },
    ensures
        section_behind(ini_lines(raws).take(i)) == section_behind(ini_lines(raws).take(h)),
    decreases i - h,
{
    lemma_len(raws);
    if h < i {
        lemma_same_section(raws, h, i - 1);
        lemma_line_at(raws, i - 1);
        let all = ini_lines(raws);
        assert(all.take(i).drop_last() =~= all.take(i - 1));
        assert(all.take(i).last() == all[i - 1]);
        let t = trim(raws[i - 1]);
        assert(!(t.len() > 0 && t[0] == '[' && t.last() == ']'));
    }
}

/// A line `key=value` gives the key that value, up to the first `=`; blanks round the
/// key and at the end of the line do not count. It belongs to the section named by
/// the last header in front of it, and to `General` where there is none.
pub proof fn law_how_a_setting_is_read(
    text: Seq<char>,
    i: int,
    front: Seq<char>,
    key: Seq<char>,
    gap: Seq<char>,
    value: Seq<char>,
    back: Seq<char>,
)
    requires
        0 <= i < lines(text).len(),
        lines(text)[i] == front + (key + gap + seq!['='] + value) + back,
        forall|j: int| 0 <= j < front.len() ==> crate::text::is_white(#[trigger] front[j]),
        forall|j: int| 0 <= j < gap.len() ==> crate::text::is_white(#[trigger] gap[j]),
        forall|j: int| 0 <= j < back.len() ==> crate::text::is_white(#[trigger] back[j]),
        key.len() > 0,
        !crate::text::is_white(key[0]),
        !crate::text::is_white(key.last()),
        !key.contains('='),
        key[0] != '#' && key[0] != ';' && key[0] != '[',
        value.len() > 0 ==> !crate::text::is_white(value.last()),
    ensures
        ini_of(text).len() == lines(text).len(),
        ini_of(text)[i] is Kv,
        ini_of(text)[i]->key == key,
        ini_of(text)[i]->value == value,
        ini_of(text)[i]->Kv_raw == lines(text)[i],
        (forall|h: int|
            0 <= h < i ==> {
                let t = trim(#[trigger] lines(text)[h]);
                !(t.len() > 0 && t[0] == '[' && t.last() == ']')
            }) ==> ini_of(text)[i]->section == "General"@,
        forall|h: int, name: Seq<char>|
            #![trigger lines(text)[h], seq!['['] + name]
            0 <= h < i && trim(lines(text)[h]) == seq!['['] + name + seq![']'] && (forall|j: int|
                h < j < i ==> {
                    let t = trim(#[trigger] lines(text)[j]);
                    !(t.len() > 0 && t[0] == '[' && t.last() == ']')
                }) ==> ini_of(text)[i]->section == name,
{
    let raws = lines(text);
    let all = ini_lines(raws);
    lemma_line_at(raws, i);
    let head = key + gap;
    let body = head + seq!['='] + value;
    crate::text::law_white_space('=');
    assert(body[0] == key[0]);
    assert(!crate::text::is_white(body.last())) by {
        if value.len() > 0 {
            assert(body.last() == value.last());
        } else {
            assert(body.last() == '=');
        }
    }
    crate::text::law_trimming(front, body, back);
    assert(trim(raws[i]) == body);
    assert(!head.contains('=')) by {
        if head.contains('=') {
            let j = head.index_of('=');
            if j < key.len() {
                assert(key[j] == '=');
            } else {
                assert(gap[j - key.len()] == '=');
            }
        }
    }
    crate::text::law_cutting_at_the_first(head, '=', value);
    let none: Seq<char> = Seq::empty();
    crate::text::law_trimming(none, key, gap);
    assert(none + key + gap =~= head);
    assert(all.take(0) =~= Seq::empty());
    if forall|h: int|
        0 <= h < i ==> {
            let t = trim(#[trigger] raws[h]);
            !(t.len() > 0 && t[0] == '[' && t.last() == ']')
        } {
        lemma_same_section(raws, 0, i);
    }
    assert forall|h: int, name: Seq<char>|
        #![trigger raws[h], seq!['['] + name]
        0 <= h < i && trim(raws[h]) == seq!['['] + name + seq![']'] && (forall|j: int|
            h < j < i ==> {
                let t = trim(#[trigger] raws[j]);
                !(t.len() > 0 && t[0] == '[' && t.last() == ']')
            }) implies all[i]->section == name by {
        lemma_same_section(raws, h + 1, i);
        lemma_line_at(raws, h);
        let t = trim(raws[h]);
        assert(t.subrange(1, t.len() - 1) =~= name);
        assert(all.take(h + 1).last() == all[h]);
    }
}

/// Of several settings for a key of a section the first one counts, and a key that no
/// line sets has no value.
pub proof fn law_the_first_setting_counts(
    lines: Seq<LineView>,
    section: Seq<char>,
    key: Seq<char>,
    i: int,
)
    requires
        0 <= i <= lines.len(),
        i < lines.len() ==> (lines[i] matches LineView::Kv { section: s, key: k, .. } && s == section
            && k == key),
        forall|j: int|
            0 <= j < i ==> !(#[trigger] lines[j] matches LineView::Kv { section: s, key: k, .. } && s
                == section && k == key),
    ensures
        i < lines.len() ==> value_of(lines, section, key) == Some(lines[i]->value),
        i == lines.len() ==> value_of(lines, section, key) is None,
{
    assert forall|j: int| 0 <= j < i implies !is_entry(#[trigger] lines[j], section, key) by {
        assert(!(lines[j] matches LineView::Kv { section: s, key: k, .. } && s == section && k
            == key));
    }
    lemma_entry_is(lines, section, key, 0, i);
}

/// A setting that the file does not have yet is written behind the last one of its
/// section, and in a section of its own at the end where there is none; nothing else
/// moves. It is written as the key, an equals sign and the value.
pub proof fn law_where_a_new_setting_goes(
    lines: Seq<LineView>,
    section: Seq<char>,
    key: Seq<char>,
    value: Seq<char>,
    end: int,
)
    requires
        value_of(lines, section, key) is None,
        0 <= end <= lines.len(),
        end > 0 ==> (lines[end - 1] matches LineView::Kv { section: s, .. } && s == section),
        forall|j: int|
            end <= j < lines.len() ==> !(#[trigger] lines[j] matches LineView::Kv {
                section: s,
                ..
            } && s == section),
    ensures
        ({
            let raw = key + seq!['='] + value;
            let entry = LineView::Kv { section, key, value, raw };
            let header = LineView::Section {
                name: section,
                raw: seq!['['] + section + seq![']'],
            };
            let out = with_value(lines, section, key, value);
            &&& end > 0 ==> out == lines.take(end) + seq![entry] + lines.skip(end)
            &&& end == 0 ==> out == lines + seq![header, entry]
        }),
{
    lemma_entry(lines, section, key, 0);
    lemma_section_end_is(lines, section, end);
    assert(key.push('=') + value =~= key + seq!['='] + value);
    let entry = entry_line(section, key, value);
    let out = with_value(lines, section, key, value);
    if end > 0 {
        assert(out =~= lines.take(end) + seq![entry] + lines.skip(end));
    } else {
        assert(out =~= lines + seq![header_line(section), entry]);
    }
}

proof fn lemma_section_end_is(lines: Seq<LineView>, section: Seq<char>, end: int)
    requires
        0 <= end <= lines.len(),
        end > 0 ==> in_section(lines[end - 1], section),
        forall|j: int|
            end <= j < lines.len() ==> !(#[trigger] lines[j] matches LineView::Kv {
                section: s,
                ..
            } && s == section),
    ensures
        section_end(lines, section) == end,
    decreases lines.len(),
{
    if lines.len() > end {
        let init = lines.drop_last();
        assert(lines[lines.len() - 1] == lines.last());
        assert forall|j: int| end <= j < init.len() implies !(#[trigger] init[j] matches LineView::Kv {
            section: s,
            ..
        } && s == section) by {
            assert(init[j] == lines[j]);
        }
        lemma_section_end_is(init, section, end);
    }
}

/// The file is written line by line as the lines stand, each with a line feed behind
/// it. Where a line itself ends in a carriage return, another one stands in between.
pub proof fn law_lines_are_written_as_they_stand(all: Seq<LineView>, l: LineView)
    ensures
        ini_text(Seq::empty()).len() == 0,
        ({
            let raw = match l {
                LineView::Section { raw, .. } => raw,
                LineView::Kv { raw, .. } => raw,
                LineView::Other(raw) => raw,
            };
            let returned = raw.len() > 0 && raw.last() == '\r';
            &&& !returned ==> ini_text(all.push(l)) == ini_text(all) + raw + seq!['\n']
            &&& returned ==> ini_text(all.push(l)) == ini_text(all) + raw + seq!['\r', '\n']
        }),
{
    let none: Seq<LineView> = Seq::empty();
    let ended = |p: Seq<char>| line_ended(p);
    assert(line_texts(none).map_values(ended) =~= Seq::empty());
    let raw = line_text(l);
    let before = line_texts(all).map_values(ended);
    let behind = line_texts(all.push(l)).map_values(ended);
    assert(behind =~= before.push(line_ended(raw)));
    assert(behind.drop_last() =~= before);
    assert(ini_text(all.push(l)) == ini_text(all) + line_ended(raw));
    assert(ini_text(all) + raw + seq!['\n'] =~= ini_text(all) + raw.push('\n'));
    assert(ini_text(all) + raw + seq!['\r', '\n'] =~= ini_text(all) + raw.push('\r').push('\n'));
}

/// A file with the one line `key=value` gives that value for the key, in the section
/// `General`.
pub proof fn law_what_a_setting_gives(
    text: &str,
    key: &str,
    value: Seq<char>,
    ini: Ini,
    r: Option<String>,
)
    requires
        call_ensures(Ini::parse, (text,), ini),
        call_ensures(Ini::get, (&ini, "General", key), r),
        text@ == key@ + seq!['='] + value + seq!['\n'],
        key@.len() > 0,
        !crate::text::is_white(key@[0]),
        !crate::text::is_white(key@.last()),
        !key@.contains('='),
        !key@.contains('\n'),
        !value.contains('\n'),
        key@[0] != '#' && key@[0] != ';' && key@[0] != '[',
        value.len() > 0 ==> !crate::text::is_white(value.last()),
    ensures
        r matches Some(v) && v@ == value,
{
    let none: Seq<char> = Seq::empty();
    let line = key@ + seq!['='] + value;
    crate::text::law_white_space('\r');
    assert(!line.contains('\n')) by {
        if line.contains('\n') {
            let i = line.index_of('\n');
            if i < key@.len() {
                assert(key@[i] == '\n');
            } else if i > key@.len() {
                assert(value[i - key@.len() - 1] == '\n');
            }
        }
    }
    if value.len() > 0 {
        assert(line.last() == value.last());
    } else {
        assert(line.last() == '=');
    }
    crate::text::law_line_endings(line, none);
    assert(line + seq!['\n'] + none =~= text@);
    assert(lines(text@) =~= seq![line]);
    assert(none + (key@ + none + seq!['='] + value) + none =~= line);
    law_how_a_setting_is_read(text@, 0, none, key@, none, value, none);
    law_the_first_setting_counts(ini@, "General"@, key@, 0);
}

} // verus!
