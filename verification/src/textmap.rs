//! A map from texts, kept in the order of its keys.
//!
//! The keys are stored strictly ascending, so walking the entries walks the
//! keys in order and no key occurs twice.
use vstd::prelude::*;

use crate::text::{before, is_before};

verus! {

// ---------------------------------------------------------------------------
// The order of texts
// ---------------------------------------------------------------------------

/// No text stands before itself, and of two different texts one stands before
/// the other and not the other way round.
pub proof fn law_order_is_total(a: Seq<char>, b: Seq<char>)
    ensures
        a == b ==> !before(a, b),
        a != b ==> before(a, b) != before(b, a),
    decreases a.len(),
{
    if a.len() > 0 && b.len() > 0 {
        law_order_is_total(a.skip(1), b.skip(1));
        if a[0] == b[0] && a.skip(1) == b.skip(1) {
            assert(a =~= seq![a[0]] + a.skip(1));
            assert(b =~= seq![b[0]] + b.skip(1));
        }
    } else if a.len() == 0 && b.len() == 0 {
        assert(a =~= b);
    }
}

/// What stands before a text stands before everything behind it.
pub proof fn law_order_is_transitive(a: Seq<char>, b: Seq<char>, c: Seq<char>)
    requires
        before(a, b),
        before(b, c),
    ensures
        before(a, c),
    decreases a.len(),
{
    if a.len() > 0 && a[0] == b[0] && b[0] == c[0] {
        law_order_is_transitive(a.skip(1), b.skip(1), c.skip(1));
    }
}

/// Strictly ascending.
pub open spec fn ascending(keys: Seq<Seq<char>>) -> bool {
    forall|i: int, j: int| 0 <= i < j < keys.len() ==> #[trigger] before(keys[i], keys[j])
}

/// How many of the ascending keys stand before `k`.
pub open spec fn rank(keys: Seq<Seq<char>>, k: Seq<char>) -> int
    decreases keys.len(),
{
    if keys.len() == 0 || !before(keys[0], k) {
        0
    } else {
        1 + rank(keys.skip(1), k)
    }
}

/// Ascending keys with `k` among them.
pub open spec fn with_key(keys: Seq<Seq<char>>, k: Seq<char>) -> Seq<Seq<char>> {
    if keys.contains(k) {
        keys
    } else {
        keys.insert(rank(keys, k), k)
    }
}

/// The different texts of a list, ascending.
pub open spec fn ordered(items: Seq<Seq<char>>) -> Seq<Seq<char>>
    decreases items.len(),
{
    if items.len() == 0 {
        Seq::empty()
    } else {
        with_key(ordered(items.drop_last()), items.last())
    }
}

pub proof fn lemma_rank(keys: Seq<Seq<char>>, k: Seq<char>)
    requires
        ascending(keys),
    ensures
        0 <= rank(keys, k) <= keys.len(),
        forall|i: int| 0 <= i < rank(keys, k) ==> before(#[trigger] keys[i], k),
        forall|i: int| rank(keys, k) <= i < keys.len() ==> !before(#[trigger] keys[i], k),
    decreases keys.len(),
{
    if keys.len() > 0 {
        let rest = keys.skip(1);
        assert forall|i: int, j: int| 0 <= i < j < rest.len() implies #[trigger] before(
            rest[i],
            rest[j],
        ) by {
            assert(before(keys[i + 1], keys[j + 1]));
        }
        lemma_rank(rest, k);
        if before(keys[0], k) {
            assert forall|i: int| 0 <= i < rank(keys, k) implies before(#[trigger] keys[i], k) by {
                if i > 0 {
                    assert(before(rest[i - 1], k));
                }
            }
            assert forall|i: int| rank(keys, k) <= i < keys.len() implies !before(
                #[trigger] keys[i],
                k,
            ) by {
                assert(!before(rest[i - 1], k));
            }
        } else {
            assert forall|i: int| 0 <= i < keys.len() implies !before(#[trigger] keys[i], k) by {
                if i > 0 {
                    assert(before(keys[0], keys[i]));
                    if before(keys[i], k) {
                        law_order_is_transitive(keys[0], keys[i], k);
                    }
                }
            }
        }
    }
}

/// The place that parts the smaller keys from the others is the rank.
pub proof fn lemma_rank_is(keys: Seq<Seq<char>>, k: Seq<char>, at: int)
    requires
        ascending(keys),
        0 <= at <= keys.len(),
        forall|i: int| 0 <= i < at ==> before(#[trigger] keys[i], k),
        forall|i: int| at <= i < keys.len() ==> !before(#[trigger] keys[i], k),
    ensures
        rank(keys, k) == at,
{
    lemma_rank(keys, k);
    let r = rank(keys, k);
    if r < at {
        assert(before(keys[r], k));
    } else if at < r {
        assert(before(keys[at], k));
    }
}

/// A key among ascending keys stands at its rank.
pub proof fn lemma_rank_of_present(keys: Seq<Seq<char>>, i: int)
    requires
        ascending(keys),
        0 <= i < keys.len(),
    ensures
        rank(keys, keys[i]) == i,
{
    assert forall|j: int| 0 <= j < i implies before(#[trigger] keys[j], keys[i]) by {}
    assert forall|j: int| i <= j < keys.len() implies !before(#[trigger] keys[j], keys[i]) by {
        if j == i {
            law_order_is_total(keys[i], keys[i]);
        } else {
            assert(before(keys[i], keys[j]));
            law_order_is_total(keys[i], keys[j]);
        }
    }
    lemma_rank_is(keys, keys[i], i);
}

/// Putting a key at its rank keeps the keys ascending.
pub proof fn lemma_with_key(keys: Seq<Seq<char>>, k: Seq<char>)
    requires
        ascending(keys),
    ensures
        ascending(with_key(keys, k)),
        forall|x: Seq<char>|
            with_key(keys, k).contains(x) <==> keys.contains(x) || x == k,
{
    if !keys.contains(k) {
        lemma_rank(keys, k);
        let r = rank(keys, k);
        let out = keys.insert(r, k);
        assert forall|i: int, j: int| 0 <= i < j < out.len() implies #[trigger] before(
            out[i],
            out[j],
        ) by {
            if i == r {
                law_order_is_total(keys[j - 1], k);
            } else if j == r {
                assert(before(keys[i], k));
            } else {
                let i0 = if i < r { i } else { i - 1 };
                let j0 = if j < r { j } else { j - 1 };
                assert(before(keys[i0], keys[j0]));
            }
        }
        assert forall|x: Seq<char>| out.contains(x) <==> keys.contains(x) || x == k by {
            if keys.contains(x) {
                let i = keys.index_of(x);
                assert(out[if i < r { i } else { i + 1 }] == x);
            }
            if x == k {
                assert(out[r] == x);
            }
        }
    } else {
        assert forall|x: Seq<char>| #[trigger] keys.contains(x) || x == k implies keys.contains(
            x,
        ) by {}
    }
}

/// The ordered texts are ascending, and are the texts of the list.
pub proof fn lemma_ordered(items: Seq<Seq<char>>)
    ensures
        ascending(ordered(items)),
        forall|x: Seq<char>| ordered(items).contains(x) <==> items.contains(x),
    decreases items.len(),
{
    if items.len() > 0 {
        let init = items.drop_last();
        lemma_ordered(init);
        lemma_with_key(ordered(init), items.last());
        assert forall|x: Seq<char>| ordered(items).contains(x) <==> items.contains(x) by {
            if init.contains(x) {
                assert(items[init.index_of(x)] == x);
            }
            if items.contains(x) {
                let i = items.index_of(x);
                if i < init.len() {
                    assert(init[i] == x);
                }
            }
            if x == items.last() {
                assert(items[items.len() - 1] == x);
            }
        }
    }
}

/// What a list of entries says of a key: the last entry for it counts.
pub open spec fn latest<V>(entries: Seq<(Seq<char>, V)>, k: Seq<char>) -> Option<V>
    decreases entries.len(),
{
    if entries.len() == 0 {
        None
    } else if entries.last().0 == k {
        Some(entries.last().1)
    } else {
        latest(entries.drop_last(), k)
    }
}

/// The keys of a list of entries.
pub open spec fn entry_keys<V>(entries: Seq<(Seq<char>, V)>) -> Seq<Seq<char>> {
    entries.map_values(|e: (Seq<char>, V)| e.0)
}

// ---------------------------------------------------------------------------
// The map
// ---------------------------------------------------------------------------

/// A map from texts to values whose entries are walked in the order of their
/// keys.
pub struct TextMap<V> {
    pub entries: Vec<(String, V)>,
}

impl<V> TextMap<V> {
    /// The keys in the order in which the entries are walked.
    pub open spec fn keys(self) -> Seq<Seq<char>> {
        self.entries@.map_values(|e: (String, V)| e.0@)
    }

    /// The entries in the order in which they are walked.
    pub open spec fn pairs(self) -> Seq<(Seq<char>, V)> {
        self.entries@.map_values(|e: (String, V)| (e.0@, e.1))
    }

    pub open spec fn wf(self) -> bool {
        ascending(self.keys())
    }

    pub open spec fn has(self, k: Seq<char>) -> bool {
        self.keys().contains(k)
    }

    /// The value stored under `k`.
    pub open spec fn at(self, k: Seq<char>) -> V
        recommends
            self.has(k),
    {
        self.entries@[rank(self.keys(), k)].1
    }

    /// What is stored under `k`.
    pub open spec fn lookup(self, k: Seq<char>) -> Option<V> {
        if self.has(k) {
            Some(self.at(k))
        } else {
            None
        }
    }

    /// The map is what these entries make when they are stored one by one.
    pub open spec fn holds(self, entries: Seq<(Seq<char>, V)>) -> bool {
        &&& self.keys() == ordered(entry_keys(entries))
        &&& forall|k: Seq<char>| #[trigger] self.lookup(k) == latest(entries, k)
    }

    pub fn new() -> (r: Self)
        ensures
            r.wf(),
            r.keys() == Seq::<Seq<char>>::empty(),
            r.holds(Seq::empty()),
    {
        let r = TextMap { entries: Vec::new() };
        assert(r.keys() =~= Seq::empty());
        assert(entry_keys(Seq::<(Seq<char>, V)>::empty()) =~= Seq::empty());
        r
    }

    pub fn len(&self) -> (r: usize)
        ensures
            r == self.keys().len(),
    {
        self.entries.len()
    }

    /// Where `key` stands, or would stand.
    fn position(&self, key: &str) -> (r: usize)
        requires
            self.wf(),
        ensures
            r == rank(self.keys(), key@),
            r <= self.entries.len(),
            self.has(key@) <==> r < self.entries.len() && self.entries@[r as int].0@ == key@,
    {
        let ghost ks = self.keys();
        let mut lo: usize = 0;
        let mut hi: usize = self.entries.len();
        while lo < hi
            invariant
                self.wf(),
                ks == self.keys(),
                lo <= hi <= self.entries.len(),
                forall|i: int| 0 <= i < lo ==> before(#[trigger] ks[i], key@),
                forall|i: int| hi <= i < ks.len() ==> !before(#[trigger] ks[i], key@),
            decreases hi - lo,
        {
            let mid: usize = lo + (hi - lo) / 2;
            assert(ks[mid as int] == self.entries@[mid as int].0@);
            if is_before(self.entries[mid].0.as_str(), key) {
                assert forall|i: int| 0 <= i < mid + 1 implies before(#[trigger] ks[i], key@) by {
                    if lo <= i < mid {
                        assert(before(ks[i], ks[mid as int]));
                        law_order_is_transitive(ks[i], ks[mid as int], key@);
                    }
                }
                lo = mid + 1;
            } else {
                assert forall|i: int| mid <= i < ks.len() implies !before(#[trigger] ks[i], key@) by {
                    if mid < i {
                        assert(before(ks[mid as int], ks[i]));
                        if before(ks[i], key@) {
                            law_order_is_transitive(ks[mid as int], ks[i], key@);
                        }
                    }
                }
                hi = mid;
            }
        }
        proof {
            lemma_rank_is(ks, key@, lo as int);
            if self.has(key@) {
                let i = ks.index_of(key@);
                lemma_rank_of_present(ks, i);
                assert(ks[i] == self.entries@[i].0@);
            } else if lo < self.entries.len() {
                assert(ks[lo as int] == self.entries@[lo as int].0@);
            }
        }
        lo
    }

    pub fn contains_key(&self, key: &str) -> (r: bool)
        requires
            self.wf(),
        ensures
            r == self.has(key@),
    {
        let i = self.position(key);
        i < self.entries.len() && crate::text::same(self.entries[i].0.as_str(), key)
    }

    pub fn get(&self, key: &str) -> (r: Option<&V>)
        requires
            self.wf(),
        ensures
            r is Some <==> self.has(key@),
            r matches Some(v) ==> *v == self.at(key@),
    {
        let i = self.position(key);
        if i < self.entries.len() && crate::text::same(self.entries[i].0.as_str(), key) {
            Some(&self.entries[i].1)
        } else {
            None
        }
    }

    /// Store `value` under `key`, in place of what was there.
    pub fn insert(&mut self, key: String, value: V)
        requires
            old(self).wf(),
        ensures
            final(self).wf(),
            final(self).keys() == with_key(old(self).keys(), key@),
            final(self).at(key@) == value,
            forall|k: Seq<char>|
                k != key@ && #[trigger] old(self).has(k) ==> final(self).at(k) == old(self).at(k),
    {
        let i = self.position(key.as_str());
        let ghost ks = self.keys();
        let ghost prev = *self;
        proof {
            lemma_with_key(ks, key@);
            lemma_rank(ks, key@);
        }
        if i < self.entries.len() && crate::text::same(self.entries[i].0.as_str(), key.as_str()) {
            self.entries[i] = (key, value);
            assert(self.keys() =~= ks);
        } else {
            self.entries.insert(i, (key, value));
            assert(self.keys() =~= ks.insert(i as int, key@));
        }
        proof {
            let now = self.keys();
            assert(now[i as int] == key@);
            lemma_rank_of_present(now, i as int);
            assert forall|k: Seq<char>| k != key@ && #[trigger] prev.has(k) implies self.at(k)
                == prev.at(k) by {
                let a = ks.index_of(k);
                lemma_rank_of_present(ks, a);
                let b = if now.len() == ks.len() || a < i { a } else { a + 1 };
                assert(now[b] == k);
                lemma_rank_of_present(now, b);
            }
        }
    }
}

/// The entries of a map say what the map says.
pub proof fn lemma_pairs<V>(map: TextMap<V>)
    requires
        map.wf(),
    ensures
        entry_keys(map.pairs()) == map.keys(),
        forall|k: Seq<char>| #[trigger] latest(map.pairs(), k) == map.lookup(k),
{
    assert(entry_keys(map.pairs()) =~= map.keys());
    assert forall|k: Seq<char>| #[trigger] latest(map.pairs(), k) == map.lookup(k) by {
        lemma_latest(map.pairs(), k);
        let ks = map.keys();
        if map.has(k) {
            let i = ks.index_of(k);
            lemma_rank_of_present(ks, i);
            assert(map.pairs()[i].0 == k);
            let j = choose|j: int|
                0 <= j < map.pairs().len() && map.pairs()[j].0 == k && latest(map.pairs(), k)
                    == Some(#[trigger] map.pairs()[j].1);
            assert(ks[j] == k);
            lemma_rank_of_present(ks, j);
        } else if latest(map.pairs(), k) is Some {
            let j = choose|j: int|
                0 <= j < map.pairs().len() && map.pairs()[j].0 == k && latest(map.pairs(), k)
                    == Some(#[trigger] map.pairs()[j].1);
            assert(ks[j] == k);
        }
    }
}

/// What a list of entries says of a key stands in the list.
pub proof fn lemma_latest<V>(entries: Seq<(Seq<char>, V)>, k: Seq<char>)
    ensures
        latest(entries, k) is Some ==> exists|j: int|
            0 <= j < entries.len() && entries[j].0 == k && latest(entries, k) == Some(
                #[trigger] entries[j].1,
            ),
        latest(entries, k) is None ==> forall|j: int|
            0 <= j < entries.len() ==> (#[trigger] entries[j]).0 != k,
    decreases entries.len(),
{
    if entries.len() > 0 {
        let init = entries.drop_last();
        lemma_latest(init, k);
        if entries.last().0 == k {
            assert(entries[entries.len() - 1].1 == entries.last().1);
        } else if latest(init, k) is Some {
            let j = choose|j: int|
                0 <= j < init.len() && init[j].0 == k && latest(init, k) == Some(
                    #[trigger] init[j].1,
                );
            assert(entries[j] == init[j]);
            assert(entries[j].1 == init[j].1);
        } else {
            assert forall|j: int| 0 <= j < entries.len() implies (#[trigger] entries[j]).0 != k by {
                if j < init.len() {
                    assert(init[j] == entries[j]);
                }
            }
        }
    }
}

/// Storing one more entry.
pub proof fn lemma_holds<V>(
    before_it: TextMap<V>,
    after_it: TextMap<V>,
    entries: Seq<(Seq<char>, V)>,
    key: Seq<char>,
    value: V,
)
    requires
        before_it.wf(),
        before_it.holds(entries),
        after_it.keys() == with_key(before_it.keys(), key),
        after_it.at(key) == value,
        forall|k: Seq<char>|
            k != key && #[trigger] before_it.has(k) ==> after_it.at(k) == before_it.at(k),
    ensures
        after_it.holds(entries.push((key, value))),
{
    let all = entries.push((key, value));
    assert(all.drop_last() =~= entries);
    assert(entry_keys(all).drop_last() =~= entry_keys(entries));
    lemma_with_key(before_it.keys(), key);
    assert forall|k: Seq<char>| #[trigger] after_it.lookup(k) == latest(all, k) by {
        assert(before_it.lookup(k) == latest(entries, k));
        assert(after_it.keys().contains(k) <==> before_it.keys().contains(k) || k == key);
        if k != key && before_it.has(k) {
            assert(after_it.at(k) == before_it.at(k));
        }
    }
}

/// In ascending order every key occurs once, so each entry counts.
pub proof fn lemma_latest_in_order<V>(entries: Seq<(Seq<char>, V)>, i: int)
    requires
        ascending(entry_keys(entries)),
        0 <= i < entries.len(),
    ensures
        latest(entries, entries[i].0) == Some(entries[i].1),
{
    let k = entries[i].0;
    lemma_latest(entries, k);
    let j = choose|j: int|
        0 <= j < entries.len() && entries[j].0 == k && latest(entries, k) == Some(
            #[trigger] entries[j].1,
        );
    let keys = entry_keys(entries);
    assert(keys[i] == k && keys[j] == k);
    law_order_is_total(k, k);
    if i < j {
        assert(before(keys[i], keys[j]));
    }
    if j < i {
        assert(before(keys[j], keys[i]));
    }
}

/// Of several entries for one key the last counts, and a key without an entry has
/// nothing stored.
pub proof fn law_the_last_entry_counts<V>(entries: Seq<(Seq<char>, V)>, k: Seq<char>, i: int)
    requires
        -1 <= i < entries.len(),
        i >= 0 ==> entries[i].0 == k,
        forall|j: int| i < j < entries.len() ==> (#[trigger] entries[j]).0 != k,
    ensures
        i >= 0 ==> latest(entries, k) == Some(entries[i].1),
        i == -1 ==> latest(entries, k) is None,
    decreases entries.len(),
{
    if entries.len() > 0 && i < entries.len() - 1 {
        let init = entries.drop_last();
        assert(entries[entries.len() - 1].0 != k);
        assert forall|j: int| i < j < init.len() implies (#[trigger] init[j]).0 != k by {
            assert(init[j] == entries[j]);
        }
        law_the_last_entry_counts(init, k, i);
    }
}

} // verus!
