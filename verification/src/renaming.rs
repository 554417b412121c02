//! What becomes of a plan when a folder of configs is called otherwise.
use vstd::prelude::*;
use vstd::string::*;

use crate::mods::{collected, count};
use crate::plan::{
    bytes_in, carried_files, carry_of, compared, files_in, first_plan, group_names, group_of,
    group_view, if_carried, if_in_group, if_mod, if_shared, is_carried, is_config_folder, is_mod,
    is_noise, mods_in, shared_files, sorted_out, top_of, total, BinaryView, CarryView, ConflictView,
    PlanView, World,
};
use crate::text::{before, find, split_once};
use crate::textmap::{ascending, entry_keys, law_order_is_total};

verus! {

// ---------------------------------------------------------------------------
// Paths
// ---------------------------------------------------------------------------

/// The path lies in that folder.
pub open spec fn in_folder(rel: Seq<char>, dir: Seq<char>) -> bool {
    split_once(rel, '/') matches Some((top, _)) && top == dir
}

/// The path with the folder `a` called `b`.
pub open spec fn moved(rel: Seq<char>, a: Seq<char>, b: Seq<char>) -> Seq<char> {
    match split_once(rel, '/') {
        Some((top, rest)) => if top == a {
            b + "/"@ + rest
        } else {
            rel
        },
        None => rel,
    }
}

/// The name of a group with the folder `a` called `b`.
pub open spec fn moved_name(name: Seq<char>, a: Seq<char>, b: Seq<char>) -> Seq<char> {
    if name == a {
        b
    } else {
        name
    }
}

proof fn lemma_folder_names(dir: Seq<char>)
    requires
        is_config_folder(dir),
    ensures
        forall|j: int| 0 <= j < dir.len() ==> dir[j] != '/',
        dir != "(loose files)"@,
        "/"@ == seq!['/'],
{
    reveal_strlit("config");
    reveal_strlit("serverutilities");
    reveal_strlit("(loose files)");
    reveal_strlit("/");
    assert("(loose files)"@.len() == 13);
    assert("/"@ =~= seq!['/']);
}

proof fn lemma_below(dir: Seq<char>, rest: Seq<char>)
    requires
        is_config_folder(dir),
    ensures
        split_once(dir + "/"@ + rest, '/') == Some((dir, rest)),
{
    lemma_folder_names(dir);
    let rel = dir + "/"@ + rest;
    let n = dir.len() as int;
    assert forall|j: int| 0 <= j < n implies rel[j] != '/' by {
        assert(rel[j] == dir[j]);
    }
    assert(rel[n] == '/');
    crate::text::lemma_find_is(rel, '/', 0, n);
    assert(rel.take(n) =~= dir);
    assert(rel.skip(n + 1) =~= rest);
}

/// A path that is renamed lies where it should, is treated as it was, and comes
/// back when the folder gets its name back.
proof fn lemma_moved(rel: Seq<char>, a: Seq<char>, b: Seq<char>)
    requires
        is_config_folder(a),
        is_config_folder(b),
        a != b,
        !in_folder(rel, b),
    ensures
        !in_folder(moved(rel, a, b), a),
        moved(moved(rel, a, b), b, a) == rel,
        in_folder(moved(rel, a, b), b) <==> in_folder(rel, a),
        !in_folder(rel, a) ==> moved(rel, a, b) == rel,
        is_mod(moved(rel, a, b)) == is_mod(rel),
        is_mod(rel) ==> !in_folder(rel, a),
        is_noise(top_of(moved(rel, a, b))) == is_noise(top_of(rel)),
        group_of(moved(rel, a, b)) == moved_name(group_of(rel), a, b),
        group_of(rel) != b,
        group_of(rel) == a <==> in_folder(rel, a),
{
    lemma_folder_names(a);
    lemma_folder_names(b);
    if in_folder(rel, a) {
        let rest = (split_once(rel, '/')->0).1;
        let i = find(rel, '/');
        crate::text::lemma_find(rel, '/', 0);
        assert(rel =~= a + "/"@ + rest);
        lemma_below(b, rest);
        lemma_below(a, rest);
        crate::plan::lemma_config_folder(a, rest);
        crate::plan::lemma_config_folder(b, rest);
    }
}

// ---------------------------------------------------------------------------
// Ordered lists
// ---------------------------------------------------------------------------

proof fn lemma_ascending_distinct(keys: Seq<Seq<char>>, i: int, j: int)
    requires
        ascending(keys),
        0 <= i < keys.len(),
        0 <= j < keys.len(),
        keys[i] == keys[j],
    ensures
        i == j,
{
    law_order_is_total(keys[i], keys[j]);
    if i < j {
        assert(before(keys[i], keys[j]));
    } else if j < i {
        assert(before(keys[j], keys[i]));
    }
}

proof fn lemma_ascending_init(keys: Seq<Seq<char>>)
    requires
        keys.len() > 0,
        ascending(keys),
    ensures
        ascending(keys.drop_last()),
{
    let init = keys.drop_last();
    assert forall|i: int, j: int| 0 <= i < j < init.len() implies #[trigger] before(
        init[i],
        init[j],
    ) by {
        assert(before(keys[i], keys[j]));
    }
}

/// Ascending lists of the same texts are the same.
proof fn lemma_same_ascending(a: Seq<Seq<char>>, b: Seq<Seq<char>>)
    requires
        ascending(a),
        ascending(b),
        forall|x: Seq<char>| #[trigger] a.contains(x) <==> b.contains(x),
    ensures
        a == b,
    decreases a.len(),
{
    if a.len() == 0 {
        if b.len() > 0 {
            assert(b.contains(b[0]));
            assert(a.contains(b[0]));
        }
        assert(a =~= b);
    } else {
        let n = a.len() - 1;
        assert(a.contains(a[n]));
        assert(b.len() > 0);
        let m = b.len() - 1;
        assert(b.contains(b[m]));
        assert(a.contains(b[m]));
        let i = a.index_of(b[m]);
        let j = b.index_of(a[n]);
        law_order_is_total(a[n], b[m]);
        if i < n {
            assert(before(a[i], a[n]));
        }
        if j < m {
            assert(before(b[j], b[m]));
        }
        assert(a[n] == b[m]);
        let ia = a.drop_last();
        let ib = b.drop_last();
        lemma_ascending_init(a);
        lemma_ascending_init(b);
        assert forall|x: Seq<char>| #[trigger] ia.contains(x) <==> ib.contains(x) by {
            if ia.contains(x) {
                let p = ia.index_of(x);
                assert(a[p] == x);
                assert(a.contains(x));
                let q = b.index_of(x);
                if q == m {
                    lemma_ascending_distinct(a, p, n);
                }
                assert(ib[q] == x);
            }
            if ib.contains(x) {
                let q = ib.index_of(x);
                assert(b[q] == x);
                assert(b.contains(x));
                assert(a.contains(x));
                let p = a.index_of(x);
                if p == n {
                    lemma_ascending_distinct(b, q, m);
                }
                assert(ia[p] == x);
            }
        }
        lemma_same_ascending(ia, ib);
        assert(a =~= ia.push(a[n]));
        assert(b =~= ib.push(b[m]));
    }
}

/// What is picked out of an ascending list is ascending.
proof fn lemma_picked_ascending<A, B>(
    s: Seq<A>,
    f: spec_fn(A) -> Option<B>,
    ka: spec_fn(A) -> Seq<char>,
    kb: spec_fn(B) -> Seq<char>,
)
    requires
        ascending(s.map_values(ka)),
        forall|x: A| #[trigger] f(x) is Some ==> kb(f(x)->0) == ka(x),
    ensures
        ascending(collected(s, f).map_values(kb)),
        forall|i: int|
            0 <= i < collected(s, f).len() ==> s.map_values(ka).contains(
                kb(#[trigger] collected(s, f)[i]),
            ),
    decreases s.len(),
{
    if s.len() > 0 {
        let init = s.drop_last();
        let ks = s.map_values(ka);
        let ki = init.map_values(ka);
        assert(ki =~= ks.drop_last());
        lemma_ascending_init(ks);
        lemma_picked_ascending(init, f, ka, kb);
        let less = collected(init, f);
        let all = collected(s, f);
        let out = all.map_values(kb);
        assert forall|i: int| 0 <= i < all.len() implies ks.contains(kb(#[trigger] all[i])) by {
            if i < less.len() {
                assert(all[i] == less[i]);
                assert(ki.contains(kb(less[i])));
                let p = ki.index_of(kb(less[i]));
                assert(ks[p] == kb(less[i]));
            } else {
                assert(f(s.last()) is Some);
                assert(ks[s.len() - 1] == ka(s.last()));
            }
        }
        assert forall|i: int, j: int| 0 <= i < j < out.len() implies #[trigger] before(
            out[i],
            out[j],
        ) by {
            assert(all[i] == less[i]);
            if j < less.len() {
                let li = less.map_values(kb);
                assert(before(li[i], li[j]));
                assert(all[j] == less[j]);
            } else {
                assert(f(s.last()) is Some);
                assert(ki.contains(kb(less[i])));
                let p = ki.index_of(kb(less[i]));
                assert(ks[p] == kb(less[i]));
                assert(before(ks[p], ks[s.len() - 1]));
            }
        }
    }
}

/// Texts with the same front are ordered by what follows.
proof fn lemma_before_behind(front: Seq<char>, a: Seq<char>, b: Seq<char>)
    ensures
        before(front + a, front + b) == before(a, b),
    decreases front.len(),
{
    if front.len() == 0 {
        assert(front + a =~= a);
        assert(front + b =~= b);
    } else {
        lemma_before_behind(front.skip(1), a, b);
        assert((front + a).skip(1) =~= front.skip(1) + a);
        assert((front + b).skip(1) =~= front.skip(1) + b);
    }
}

// ---------------------------------------------------------------------------
// Trees
// ---------------------------------------------------------------------------

/// The second tree is the first with the folder `a` called `b`, and the first has
/// no folder `b`.
pub open spec fn is_moved(
    x: Seq<(Seq<char>, u64)>,
    y: Seq<(Seq<char>, u64)>,
    a: Seq<char>,
    b: Seq<char>,
) -> bool {
    &&& ascending(entry_keys(x))
    &&& ascending(entry_keys(y))
    &&& forall|e: (Seq<char>, u64)| #[trigger]
        x.contains(e) ==> !in_folder(e.0, b) && y.contains((moved(e.0, a, b), e.1))
    &&& forall|e: (Seq<char>, u64)| #[trigger]
        y.contains(e) ==> !in_folder(e.0, a) && x.contains((moved(e.0, b, a), e.1))
}

/// The files hold the same where the folder `a` is called `b`.
pub open spec fn same_files(v: World, w: World, a: Seq<char>, b: Seq<char>) -> bool {
    forall|rel: Seq<char>|
        !in_folder(rel, b) ==> {
            let there = #[trigger] moved(rel, a, b);
            &&& (w.ours)(there) == (v.ours)(rel)
            &&& (w.theirs)(there) == (v.theirs)(rel)
            &&& (w.digest)(there) == (v.digest)(rel)
            &&& (w.base)(there) == (v.base)(rel)
        }
}

/// The second list holds what the first one does, renamed, and nothing else, in
/// whatever order.
pub open spec fn renames<T>(p: Seq<T>, q: Seq<T>, f: spec_fn(T) -> T) -> bool {
    &&& p.len() == q.len()
    &&& forall|x: T| #[trigger] p.contains(x) ==> q.contains(f(x))
    &&& forall|y: T| #[trigger] q.contains(y) ==> exists|x: T| #[trigger] p.contains(x) && f(x) == y
}

/// The second plan is the first with the folder `a` called `b`.
pub open spec fn plan_moved(p: PlanView, q: PlanView, a: Seq<char>, b: Seq<char>) -> bool {
    &&& q.identical == p.identical
    &&& q.take_pack == p.take_pack
    &&& q.mods == p.mods
    &&& q.base_missing == p.base_missing
    &&& renames(p.keep_yours, q.keep_yours, |rel: Seq<char>| moved(rel, a, b))
    &&& renames(
        p.auto_merged,
        q.auto_merged,
        |m: (Seq<char>, Seq<char>)| (moved(m.0, a, b), m.1),
    )
    &&& renames(p.conflicts, q.conflicts, |c: ConflictView| conflict_moved(c, a, b))
    &&& renames(p.binary_conflicts, q.binary_conflicts, |c: BinaryView| binary_moved(c, a, b))
    &&& renames(p.carry, q.carry, |g: CarryView| group_moved(g, a, b))
}

pub open spec fn conflict_moved(c: ConflictView, a: Seq<char>, b: Seq<char>) -> ConflictView {
    ConflictView { rel: moved(c.rel, a, b), ..c }
}

pub open spec fn binary_moved(c: BinaryView, a: Seq<char>, b: Seq<char>) -> BinaryView {
    BinaryView { rel: moved(c.rel, a, b), ..c }
}

pub open spec fn group_moved(g: CarryView, a: Seq<char>, b: Seq<char>) -> CarryView {
    CarryView {
        name: moved_name(g.name, a, b),
        files: g.files.map_values(|rel: Seq<char>| moved(rel, a, b)),
        ..g
    }
}

proof fn lemma_entry_keys(x: Seq<(Seq<char>, u64)>)
    ensures
        entry_keys(x) == x.map_values(|e: (Seq<char>, u64)| e.0),
        forall|k: Seq<char>| #[trigger]
            entry_keys(x).contains(k) ==> exists|e: (Seq<char>, u64)| #[trigger]
                x.contains(e) && e.0 == k,
        forall|e: (Seq<char>, u64)| #[trigger] x.contains(e) ==> entry_keys(x).contains(e.0),
{
    assert forall|k: Seq<char>| #[trigger] entry_keys(x).contains(k) implies exists|
        e: (Seq<char>, u64),
    | #[trigger] x.contains(e) && e.0 == k by {
        let i = entry_keys(x).index_of(k);
        assert(x.contains(x[i]) && x[i].0 == k);
    }
    assert forall|e: (Seq<char>, u64)| #[trigger] x.contains(e) implies entry_keys(x).contains(
        e.0,
    ) by {
        assert(entry_keys(x)[x.index_of(e)] == e.0);
    }
}

/// The paths of the one tree are those of the other, renamed.
proof fn lemma_keys_moved(
    x: Seq<(Seq<char>, u64)>,
    y: Seq<(Seq<char>, u64)>,
    a: Seq<char>,
    b: Seq<char>,
    rel: Seq<char>,
)
    requires
        is_config_folder(a),
        is_config_folder(b),
        a != b,
        is_moved(x, y, a, b),
    ensures
        entry_keys(x).contains(rel) ==> !in_folder(rel, b) && entry_keys(y).contains(
            moved(rel, a, b),
        ),
        entry_keys(y).contains(rel) ==> !in_folder(rel, a) && entry_keys(x).contains(
            moved(rel, b, a),
        ),
{
    lemma_entry_keys(x);
    lemma_entry_keys(y);
    if entry_keys(x).contains(rel) {
        let e = choose|e: (Seq<char>, u64)| #[trigger] x.contains(e) && e.0 == rel;
        assert(y.contains((moved(e.0, a, b), e.1)));
    }
    if entry_keys(y).contains(rel) {
        let e = choose|e: (Seq<char>, u64)| #[trigger] y.contains(e) && e.0 == rel;
        assert(x.contains((moved(e.0, b, a), e.1)));
    }
}

proof fn lemma_moved_back(
    x: Seq<(Seq<char>, u64)>,
    y: Seq<(Seq<char>, u64)>,
    a: Seq<char>,
    b: Seq<char>,
)
    requires
        is_moved(x, y, a, b),
    ensures
        is_moved(y, x, b, a),
{
}

proof fn lemma_distinct_entries(x: Seq<(Seq<char>, u64)>)
    requires
        ascending(entry_keys(x)),
    ensures
        x.no_duplicates(),
        forall|e: (Seq<char>, u64), d: (Seq<char>, u64)|
            #![trigger x.contains(e), x.contains(d)]
            x.contains(e) && x.contains(d) && e.0 == d.0 ==> e == d,
{
    let keys = entry_keys(x);
    assert forall|i: int, j: int| 0 <= i < x.len() && 0 <= j < x.len() && i != j implies x[i]
        != x[j] by {
        if x[i] == x[j] {
            assert(keys[i] == keys[j]);
            lemma_ascending_distinct(keys, i, j);
        }
    }
    assert forall|e: (Seq<char>, u64), d: (Seq<char>, u64)|
        #![trigger x.contains(e), x.contains(d)]
        x.contains(e) && x.contains(d) && e.0 == d.0 implies e == d by {
        let i = x.index_of(e);
        let j = x.index_of(d);
        assert(keys[i] == keys[j]);
        lemma_ascending_distinct(keys, i, j);
    }
}

// ---------------------------------------------------------------------------
// Jars
// ---------------------------------------------------------------------------

proof fn lemma_mods_in(x: Seq<(Seq<char>, u64)>)
    requires
        ascending(entry_keys(x)),
    ensures
        ascending(entry_keys(mods_in(x))),
        forall|e: (Seq<char>, u64)| #[trigger]
            mods_in(x).contains(e) <==> x.contains(e) && is_mod(e.0),
{
    let f = |e: (Seq<char>, u64)| if_mod(e);
    let k = |e: (Seq<char>, u64)| e.0;
    assert(entry_keys(x) =~= x.map_values(k));
    assert(entry_keys(mods_in(x)) =~= mods_in(x).map_values(k));
    lemma_picked_ascending(x, f, k, k);
    crate::mods::lemma_collected(x, f);
    assert forall|e: (Seq<char>, u64)| #[trigger] mods_in(x).contains(e) <==> x.contains(e)
        && is_mod(e.0) by {
        if mods_in(x).contains(e) {
            let d = choose|d: (Seq<char>, u64)| x.contains(d) && #[trigger] f(d) == Some(e);
            assert(if_mod(d) == Some(e));
        }
        if x.contains(e) && is_mod(e.0) {
            assert(f(e) == Some(e));
            assert(collected(x, f).contains(e));
        }
    }
}

/// The jars stay as they are.
proof fn lemma_mods_stay(
    x: Seq<(Seq<char>, u64)>,
    y: Seq<(Seq<char>, u64)>,
    a: Seq<char>,
    b: Seq<char>,
)
    requires
        is_config_folder(a),
        is_config_folder(b),
        a != b,
        is_moved(x, y, a, b),
    ensures
        mods_in(y) == mods_in(x),
{
    let p = mods_in(x);
    let q = mods_in(y);
    lemma_mods_in(x);
    lemma_mods_in(y);
    assert forall|e: (Seq<char>, u64)| #[trigger] p.contains(e) <==> q.contains(e) by {
        if p.contains(e) {
            lemma_moved(e.0, a, b);
            assert(y.contains((moved(e.0, a, b), e.1)));
        }
        if q.contains(e) {
            assert(y.contains(e));
            lemma_moved(e.0, b, a);
            assert(x.contains((moved(e.0, b, a), e.1)));
        }
    }
    lemma_entry_keys(p);
    lemma_entry_keys(q);
    assert forall|k: Seq<char>| #[trigger] entry_keys(p).contains(k) <==> entry_keys(q).contains(
        k,
    ) by {
        if entry_keys(p).contains(k) {
            let e = choose|e: (Seq<char>, u64)| #[trigger] p.contains(e) && e.0 == k;
            assert(q.contains(e));
        }
        if entry_keys(q).contains(k) {
            let e = choose|e: (Seq<char>, u64)| #[trigger] q.contains(e) && e.0 == k;
            assert(p.contains(e));
        }
    }
    lemma_same_ascending(entry_keys(p), entry_keys(q));
    lemma_distinct_entries(q);
    assert forall|i: int| 0 <= i < p.len() implies p[i] == q[i] by {
        assert(entry_keys(p)[i] == entry_keys(q)[i]);
        assert(p.contains(p[i]));
        assert(q.contains(p[i]));
        assert(q.contains(q[i]));
    }
    assert(entry_keys(p).len() == p.len() && entry_keys(q).len() == q.len());
    assert(p =~= q);
}

// ---------------------------------------------------------------------------
// Shared files
// ---------------------------------------------------------------------------

proof fn lemma_shared(ours: Seq<(Seq<char>, u64)>, theirs: Seq<(Seq<char>, u64)>)
    requires
        ascending(entry_keys(theirs)),
    ensures
        shared_files(entry_keys(ours), entry_keys(theirs)).no_duplicates(),
        forall|rel: Seq<char>| #[trigger]
            shared_files(entry_keys(ours), entry_keys(theirs)).contains(rel) <==> entry_keys(
                ours,
            ).contains(rel) && entry_keys(theirs).contains(rel),
{
    let o = entry_keys(ours);
    let t = entry_keys(theirs);
    let f = |rel: Seq<char>| if_shared(rel, o);
    let k = |rel: Seq<char>| rel;
    let s = shared_files(o, t);
    assert(s == collected(t, f));
    assert(t.map_values(k) =~= t);
    assert(s.map_values(k) =~= s);
    lemma_picked_ascending(t, f, k, k);
    assert forall|i: int, j: int| 0 <= i < s.len() && 0 <= j < s.len() && i != j implies s[i]
        != s[j] by {
        if s[i] == s[j] {
            lemma_ascending_distinct(s, i, j);
        }
    }
    crate::mods::lemma_collected(t, f);
    assert forall|rel: Seq<char>| #[trigger] s.contains(rel) <==> o.contains(rel) && t.contains(
        rel,
    ) by {
        if s.contains(rel) {
            let d = choose|d: Seq<char>| t.contains(d) && #[trigger] f(d) == Some(rel);
            assert(if_shared(d, o) == Some(rel));
        }
        if o.contains(rel) && t.contains(rel) {
            assert(f(rel) == Some(rel));
            assert(collected(t, f).contains(rel));
        }
    }
}

spec fn weight_of(yes: bool) -> int {
    if yes {
        1
    } else {
        0
    }
}

proof fn lemma_count_total<T>(s: Seq<T>, p: spec_fn(T) -> bool)
    ensures
        count(s, p) == total(s, |x: T| weight_of(p(x))),
    decreases s.len(),
{
    if s.len() > 0 {
        lemma_count_total(s.drop_last(), p);
    }
}

/// As many files of the renamed tree have a property as files of the other.
proof fn lemma_count_moved(
    s: Seq<Seq<char>>,
    t: Seq<Seq<char>>,
    p: spec_fn(Seq<char>) -> bool,
    q: spec_fn(Seq<char>) -> bool,
    a: Seq<char>,
    b: Seq<char>,
)
    requires
        is_config_folder(a),
        is_config_folder(b),
        a != b,
        s.no_duplicates(),
        t.no_duplicates(),
        forall|rel: Seq<char>| #[trigger]
            s.contains(rel) ==> !in_folder(rel, b) && t.contains(moved(rel, a, b)) && q(
                moved(rel, a, b),
            ) == p(rel),
        forall|rel: Seq<char>| #[trigger]
            t.contains(rel) ==> !in_folder(rel, a) && s.contains(moved(rel, b, a)),
    ensures
        count(s, p) == count(t, q),
{
    let there = |rel: Seq<char>| moved(rel, a, b);
    let back = |rel: Seq<char>| moved(rel, b, a);
    let weight = |rel: Seq<char>| weight_of(p(rel));
    let heavy = |rel: Seq<char>| weight_of(q(rel));
    assert forall|i: int| 0 <= i < s.len() implies t.contains(there(#[trigger] s[i])) && back(
        there(s[i]),
    ) == s[i] && heavy(there(s[i])) == weight(s[i]) by {
        assert(s.contains(s[i]));
        lemma_moved(s[i], a, b);
    }
    assert forall|j: int| 0 <= j < t.len() implies s.contains(back(#[trigger] t[j])) && there(
        back(t[j]),
    ) == t[j] by {
        assert(t.contains(t[j]));
        lemma_moved(t[j], b, a);
    }
    crate::plan::lemma_total_moved(s, t, there, back, weight, heavy);
    lemma_count_total(s, p);
    lemma_count_total(t, q);
}

// ---------------------------------------------------------------------------
// What is carried over
// ---------------------------------------------------------------------------

proof fn lemma_carried(ours: Seq<(Seq<char>, u64)>, theirs: Seq<Seq<char>>)
    requires
        ascending(entry_keys(ours)),
    ensures
        ascending(entry_keys(carried_files(ours, theirs))),
        forall|e: (Seq<char>, u64)| #[trigger]
            carried_files(ours, theirs).contains(e) <==> ours.contains(e) && is_carried(
                e.0,
                theirs,
            ),
{
    let f = |e: (Seq<char>, u64)| if_carried(e, theirs);
    let k = |e: (Seq<char>, u64)| e.0;
    let files = carried_files(ours, theirs);
    assert(entry_keys(ours) =~= ours.map_values(k));
    assert(entry_keys(files) =~= files.map_values(k));
    assert(files == collected(ours, f));
    lemma_picked_ascending(ours, f, k, k);
    crate::mods::lemma_collected(ours, f);
    assert forall|e: (Seq<char>, u64)| #[trigger] files.contains(e) <==> ours.contains(e)
        && is_carried(e.0, theirs) by {
        if files.contains(e) {
            let d = choose|d: (Seq<char>, u64)| ours.contains(d) && #[trigger] f(d) == Some(e);
            assert(if_carried(d, theirs) == Some(e));
        }
        if ours.contains(e) && is_carried(e.0, theirs) {
            assert(f(e) == Some(e));
            assert(collected(ours, f).contains(e));
        }
    }
}

/// What is carried over from the renamed tree is what is carried over from the
/// other, renamed.
proof fn lemma_carried_moved(
    ours: Seq<(Seq<char>, u64)>,
    theirs: Seq<(Seq<char>, u64)>,
    ours2: Seq<(Seq<char>, u64)>,
    theirs2: Seq<(Seq<char>, u64)>,
    a: Seq<char>,
    b: Seq<char>,
)
    requires
        is_config_folder(a),
        is_config_folder(b),
        a != b,
        is_moved(ours, ours2, a, b),
        is_moved(theirs, theirs2, a, b),
    ensures
        is_moved(
            carried_files(ours, entry_keys(theirs)),
            carried_files(ours2, entry_keys(theirs2)),
            a,
            b,
        ),
{
    let p = carried_files(ours, entry_keys(theirs));
    let q = carried_files(ours2, entry_keys(theirs2));
    lemma_carried(ours, entry_keys(theirs));
    lemma_carried(ours2, entry_keys(theirs2));
    assert forall|e: (Seq<char>, u64)| #[trigger] p.contains(e) implies !in_folder(e.0, b)
        && q.contains((moved(e.0, a, b), e.1)) by {
        assert(ours.contains(e));
        lemma_moved(e.0, a, b);
        let there = moved(e.0, a, b);
        lemma_keys_moved(theirs, theirs2, a, b, there);
        assert(ours2.contains((there, e.1)));
        assert(is_carried(there, entry_keys(theirs2)));
    }
    assert forall|e: (Seq<char>, u64)| #[trigger] q.contains(e) implies !in_folder(e.0, a)
        && p.contains((moved(e.0, b, a), e.1)) by {
        assert(ours2.contains(e));
        lemma_moved(e.0, b, a);
        let there = moved(e.0, b, a);
        lemma_keys_moved(theirs, theirs2, a, b, there);
        assert(ours.contains((there, e.1)));
        assert(is_carried(there, entry_keys(theirs)));
    }
}

proof fn lemma_files_in(files: Seq<(Seq<char>, u64)>, name: Seq<char>)
    requires
        ascending(entry_keys(files)),
    ensures
        ascending(files_in(files, name)),
        forall|rel: Seq<char>| #[trigger]
            files_in(files, name).contains(rel) <==> entry_keys(files).contains(rel) && group_of(
                rel,
            ) == name,
{
    let f = |e: (Seq<char>, u64)| if_in_group(e, name);
    let ka = |e: (Seq<char>, u64)| e.0;
    let kb = |rel: Seq<char>| rel;
    let s = files_in(files, name);
    assert(s == collected(files, f));
    assert(entry_keys(files) =~= files.map_values(ka));
    assert(s.map_values(kb) =~= s);
    lemma_picked_ascending(files, f, ka, kb);
    crate::mods::lemma_collected(files, f);
    lemma_entry_keys(files);
    assert forall|rel: Seq<char>| #[trigger] s.contains(rel) <==> entry_keys(files).contains(rel)
        && group_of(rel) == name by {
        if s.contains(rel) {
            let e = choose|e: (Seq<char>, u64)| files.contains(e) && #[trigger] f(e) == Some(rel);
            assert(if_in_group(e, name) == Some(rel));
        }
        if entry_keys(files).contains(rel) && group_of(rel) == name {
            let e = choose|e: (Seq<char>, u64)| #[trigger] files.contains(e) && e.0 == rel;
            assert(f(e) == Some(rel));
            assert(collected(files, f).contains(rel));
        }
    }
}

/// The files of a group, renamed, stay in their order.
proof fn lemma_moved_ascending(
    s: Seq<Seq<char>>,
    name: Seq<char>,
    a: Seq<char>,
    b: Seq<char>,
)
    requires
        is_config_folder(a),
        is_config_folder(b),
        a != b,
        ascending(s),
        forall|i: int|
            0 <= i < s.len() ==> !in_folder(#[trigger] s[i], b) && group_of(s[i]) == name,
    ensures
        ascending(s.map_values(|rel: Seq<char>| moved(rel, a, b))),
{
    let t = s.map_values(|rel: Seq<char>| moved(rel, a, b));
    assert forall|i: int, j: int| 0 <= i < j < t.len() implies #[trigger] before(t[i], t[j]) by {
        assert(before(s[i], s[j]));
        lemma_moved(s[i], a, b);
        lemma_moved(s[j], a, b);
        if name == a {
            lemma_folder_names(a);
            let ri = (split_once(s[i], '/')->0).1;
            let rj = (split_once(s[j], '/')->0).1;
            crate::text::lemma_find(s[i], '/', 0);
            crate::text::lemma_find(s[j], '/', 0);
            assert(s[i] =~= a + "/"@ + ri);
            assert(s[j] =~= a + "/"@ + rj);
            lemma_before_behind(a + "/"@, ri, rj);
            lemma_before_behind(b + "/"@, ri, rj);
        }
    }
}

proof fn lemma_bytes_total(files: Seq<(Seq<char>, u64)>, name: Seq<char>)
    ensures
        bytes_in(files, name) == total(files, |e: (Seq<char>, u64)| part_of(e, name)),
    decreases files.len(),
{
    if files.len() > 0 {
        lemma_bytes_total(files.drop_last(), name);
    }
}

spec fn part_of(e: (Seq<char>, u64), name: Seq<char>) -> int {
    if group_of(e.0) == name {
        e.1 as int
    } else {
        0
    }
}

/// A group of the renamed files is the group of the others, renamed.
proof fn lemma_group_moved(
    x: Seq<(Seq<char>, u64)>,
    y: Seq<(Seq<char>, u64)>,
    name: Seq<char>,
    a: Seq<char>,
    b: Seq<char>,
)
    requires
        is_config_folder(a),
        is_config_folder(b),
        a != b,
        is_moved(x, y, a, b),
        name != b,
    ensures
        group_view(y, moved_name(name, a, b)) == group_moved(group_view(x, name), a, b),
{
    let there_name = moved_name(name, a, b);
    let s = files_in(x, name);
    let t = files_in(y, there_name);
    let m = s.map_values(|rel: Seq<char>| moved(rel, a, b));
    lemma_files_in(x, name);
    lemma_files_in(y, there_name);
    assert forall|i: int| 0 <= i < s.len() implies !in_folder(#[trigger] s[i], b) && group_of(s[i])
        == name by {
        assert(s.contains(s[i]));
        lemma_keys_moved(x, y, a, b, s[i]);
    }
    lemma_moved_ascending(s, name, a, b);
    assert forall|rel: Seq<char>| #[trigger] m.contains(rel) <==> t.contains(rel) by {
        if m.contains(rel) {
            let i = m.index_of(rel);
            assert(s.contains(s[i]));
            lemma_keys_moved(x, y, a, b, s[i]);
            lemma_moved(s[i], a, b);
        }
        if t.contains(rel) {
            lemma_keys_moved(x, y, a, b, rel);
            lemma_moved(rel, b, a);
            let from = moved(rel, b, a);
            assert(group_of(from) == name);
            assert(s.contains(from));
            assert(m[s.index_of(from)] == rel);
        }
    }
    lemma_same_ascending(m, t);
    let there = |e: (Seq<char>, u64)| (moved(e.0, a, b), e.1);
    let back = |e: (Seq<char>, u64)| (moved(e.0, b, a), e.1);
    let weight = |e: (Seq<char>, u64)| part_of(e, name);
    let heavy = |e: (Seq<char>, u64)| part_of(e, there_name);
    assert forall|i: int| 0 <= i < x.len() implies y.contains(there(#[trigger] x[i])) && back(
        there(x[i]),
    ) == x[i] && heavy(there(x[i])) == weight(x[i]) by {
        assert(x.contains(x[i]));
        lemma_moved(x[i].0, a, b);
    }
    assert forall|j: int| 0 <= j < y.len() implies x.contains(back(#[trigger] y[j])) && there(
        back(y[j]),
    ) == y[j] by {
        assert(y.contains(y[j]));
        lemma_moved(y[j].0, b, a);
    }
    lemma_distinct_entries(x);
    lemma_distinct_entries(y);
    crate::plan::lemma_total_moved(x, y, there, back, weight, heavy);
    lemma_bytes_total(x, name);
    lemma_bytes_total(y, there_name);
}

proof fn lemma_names_moved(
    x: Seq<(Seq<char>, u64)>,
    y: Seq<(Seq<char>, u64)>,
    name: Seq<char>,
    a: Seq<char>,
    b: Seq<char>,
)
    requires
        is_config_folder(a),
        is_config_folder(b),
        a != b,
        is_moved(x, y, a, b),
        group_names(x).contains(name),
    ensures
        name != b,
        group_names(y).contains(moved_name(name, a, b)),
{
    assert(exists|e: (Seq<char>, u64)| x.contains(e) && #[trigger] group_of(e.0) == name) by {
        crate::plan::lemma_group_names(x);
    }
    let e = choose|e: (Seq<char>, u64)| x.contains(e) && #[trigger] group_of(e.0) == name;
    assert(x.contains(e));
    let d = (moved(e.0, a, b), e.1);
    assert(y.contains(d));
    assert(name != b && group_of(d.0) == moved_name(name, a, b)) by {
        lemma_moved(e.0, a, b);
    }
    assert(group_names(y).contains(group_of(d.0))) by {
        crate::plan::lemma_group_names(y);
        let j = y.index_of(d);
        assert(y[j] == d);
        assert(group_names(y).contains(group_of(y[j].0)));
    }
}

proof fn lemma_carry_moved(
    ours: Seq<(Seq<char>, u64)>,
    theirs: Seq<(Seq<char>, u64)>,
    ours2: Seq<(Seq<char>, u64)>,
    theirs2: Seq<(Seq<char>, u64)>,
    a: Seq<char>,
    b: Seq<char>,
)
    requires
        is_config_folder(a),
        is_config_folder(b),
        a != b,
        is_moved(ours, ours2, a, b),
        is_moved(theirs, theirs2, a, b),
    ensures
        renames(
            carry_of(ours, entry_keys(theirs)),
            carry_of(ours2, entry_keys(theirs2)),
            |g: CarryView| group_moved(g, a, b),
        ),
{
    let x = carried_files(ours, entry_keys(theirs));
    let y = carried_files(ours2, entry_keys(theirs2));
    let p = carry_of(ours, entry_keys(theirs));
    let q = carry_of(ours2, entry_keys(theirs2));
    let f = |g: CarryView| group_moved(g, a, b);
    lemma_carried_moved(ours, theirs, ours2, theirs2, a, b);
    lemma_moved_back(x, y, a, b);
    crate::plan::lemma_carry_groups(ours, entry_keys(theirs));
    crate::plan::lemma_carry_groups(ours2, entry_keys(theirs2));
    let s = group_names(x);
    let t = group_names(y);
    crate::plan::lemma_group_names(x);
    crate::plan::lemma_group_names(y);
    let there = |n: Seq<char>| moved_name(n, a, b);
    let back = |n: Seq<char>| moved_name(n, b, a);
    let one = |n: Seq<char>| 1int;
    assert forall|i: int| 0 <= i < s.len() implies t.contains(there(#[trigger] s[i])) && back(
        there(s[i]),
    ) == s[i] && one(there(s[i])) == one(s[i]) by {
        assert(s.contains(s[i]));
        lemma_names_moved(x, y, s[i], a, b);
    }
    assert forall|j: int| 0 <= j < t.len() implies s.contains(back(#[trigger] t[j])) && there(
        back(t[j]),
    ) == t[j] by {
        assert(t.contains(t[j]));
        lemma_names_moved(y, x, t[j], b, a);
    }
    crate::plan::lemma_total_moved(s, t, there, back, one, one);
    assert forall|g: CarryView| #[trigger] p.contains(g) implies q.contains(f(g)) by {
        lemma_names_moved(x, y, g.name, a, b);
        lemma_group_moved(x, y, g.name, a, b);
        assert(f(g).name == moved_name(g.name, a, b));
    }
    assert forall|g: CarryView| #[trigger] q.contains(g) implies exists|o: CarryView| #[trigger]
        p.contains(o) && f(o) == g by {
        lemma_names_moved(y, x, g.name, b, a);
        let name = moved_name(g.name, b, a);
        let o = group_view(x, name);
        assert(o.name == name);
        assert(p.contains(o));
        lemma_group_moved(x, y, name, a, b);
        assert(f(o) == g);
    }
}

// ---------------------------------------------------------------------------
// The law
// ---------------------------------------------------------------------------

/// Calling the folder `config` `serverutilities`, or the other way round, in every
/// tree calls it so in the plan and changes nothing else: the same counts, the
/// same merged texts, conflicts and choices, the same mods and the same groups, up
/// to the order of the lists.
pub proof fn law_renaming_a_config_folder_renames_the_plan(
    v: World,
    w: World,
    ours: Seq<(Seq<char>, u64)>,
    theirs: Seq<(Seq<char>, u64)>,
    base: Seq<(Seq<char>, u64)>,
    ours2: Seq<(Seq<char>, u64)>,
    theirs2: Seq<(Seq<char>, u64)>,
    base2: Seq<(Seq<char>, u64)>,
    a: Seq<char>,
    b: Seq<char>,
)
    requires
        is_config_folder(a),
        is_config_folder(b),
        a != b,
        is_moved(ours, ours2, a, b),
        is_moved(theirs, theirs2, a, b),
        is_moved(base, base2, a, b),
        same_files(v, w, a, b),
    ensures
        plan_moved(v.whole_plan(ours, theirs, base), w.whole_plan(ours2, theirs2, base2), a, b),
{
    let p = v.whole_plan(ours, theirs, base);
    let q = w.whole_plan(ours2, theirs2, base2);
    let s = shared_files(entry_keys(ours), entry_keys(theirs));
    let t = shared_files(entry_keys(ours2), entry_keys(theirs2));
    crate::plan::law_every_shared_file_is_in_one_list(v, ours, theirs, base);
    crate::plan::law_every_shared_file_is_in_one_list(w, ours2, theirs2, base2);
    crate::plan::lemma_planned_keeps(v, first_plan(ours, theirs, base), s, s.len() as int);
    crate::plan::lemma_planned_keeps(w, first_plan(ours2, theirs2, base2), t, t.len() as int);
    lemma_mods_stay(ours, ours2, a, b);
    lemma_mods_stay(theirs, theirs2, a, b);
    lemma_mods_stay(base, base2, a, b);
    assert(base.len() == 0 <==> base2.len() == 0) by {
        if base.len() > 0 {
            assert(base.contains(base[0]));
        }
        if base2.len() > 0 {
            assert(base2.contains(base2[0]));
        }
    }
    lemma_carry_moved(ours, theirs, ours2, theirs2, a, b);
    lemma_shared(ours, theirs);
    lemma_shared(ours2, theirs2);
    assert forall|rel: Seq<char>| #[trigger] s.contains(rel) implies !in_folder(rel, b)
        && t.contains(moved(rel, a, b)) && is_mod(moved(rel, a, b)) == is_mod(rel) && w.verdict(
        moved(rel, a, b),
    ) == v.verdict(rel) by {
        lemma_keys_moved(ours, ours2, a, b, rel);
        lemma_keys_moved(theirs, theirs2, a, b, rel);
        lemma_moved(rel, a, b);
    }
    assert forall|rel: Seq<char>| #[trigger] t.contains(rel) implies !in_folder(rel, a)
        && s.contains(moved(rel, b, a)) && moved(moved(rel, b, a), a, b) == rel by {
        lemma_keys_moved(ours, ours2, a, b, rel);
        lemma_keys_moved(theirs, theirs2, a, b, rel);
        lemma_moved(rel, b, a);
    }
    lemma_counts_moved(v, w, s, t, a, b);
    lemma_lists_moved(v, w, s, t, p, q, a, b);
}

/// The two worlds have the same shared files, but for the name of a folder.
spec fn shared_moved(
    v: World,
    w: World,
    s: Seq<Seq<char>>,
    t: Seq<Seq<char>>,
    a: Seq<char>,
    b: Seq<char>,
) -> bool {
    &&& is_config_folder(a) && is_config_folder(b) && a != b
    &&& s.no_duplicates() && t.no_duplicates()
    &&& forall|rel: Seq<char>| #[trigger]
        s.contains(rel) ==> !in_folder(rel, b) && t.contains(moved(rel, a, b)) && is_mod(
            moved(rel, a, b),
        ) == is_mod(rel) && w.verdict(moved(rel, a, b)) == v.verdict(rel)
    &&& forall|rel: Seq<char>| #[trigger]
        t.contains(rel) ==> !in_folder(rel, a) && s.contains(moved(rel, b, a)) && moved(
            moved(rel, b, a),
            a,
            b,
        ) == rel
}

proof fn lemma_counts_moved(
    v: World,
    w: World,
    s: Seq<Seq<char>>,
    t: Seq<Seq<char>>,
    a: Seq<char>,
    b: Seq<char>,
)
    requires
        shared_moved(v, w, s, t, a, b),
    ensures
        count(s, |rel: Seq<char>| !is_mod(rel) && v.verdict(rel) is Identical) == count(
            t,
            |rel: Seq<char>| !is_mod(rel) && w.verdict(rel) is Identical,
        ),
        count(s, |rel: Seq<char>| !is_mod(rel) && v.verdict(rel) is TakePack) == count(
            t,
            |rel: Seq<char>| !is_mod(rel) && w.verdict(rel) is TakePack,
        ),
        count(s, |rel: Seq<char>| !is_mod(rel) && v.verdict(rel) is KeepYours) == count(
            t,
            |rel: Seq<char>| !is_mod(rel) && w.verdict(rel) is KeepYours,
        ),
        count(s, |rel: Seq<char>| !is_mod(rel) && v.verdict(rel) is Merged) == count(
            t,
            |rel: Seq<char>| !is_mod(rel) && w.verdict(rel) is Merged,
        ),
        count(s, |rel: Seq<char>| !is_mod(rel) && v.verdict(rel) is Conflict) == count(
            t,
            |rel: Seq<char>| !is_mod(rel) && w.verdict(rel) is Conflict,
        ),
        count(s, |rel: Seq<char>| !is_mod(rel) && v.verdict(rel) is Binary) == count(
            t,
            |rel: Seq<char>| !is_mod(rel) && w.verdict(rel) is Binary,
        ),
{
    lemma_count_moved(
        s,
        t,
        |rel: Seq<char>| !is_mod(rel) && v.verdict(rel) is Identical,
        |rel: Seq<char>| !is_mod(rel) && w.verdict(rel) is Identical,
        a,
        b,
    );
    lemma_count_moved(
        s,
        t,
        |rel: Seq<char>| !is_mod(rel) && v.verdict(rel) is TakePack,
        |rel: Seq<char>| !is_mod(rel) && w.verdict(rel) is TakePack,
        a,
        b,
    );
    lemma_count_moved(
        s,
        t,
        |rel: Seq<char>| !is_mod(rel) && v.verdict(rel) is KeepYours,
        |rel: Seq<char>| !is_mod(rel) && w.verdict(rel) is KeepYours,
        a,
        b,
    );
    lemma_count_moved(
        s,
        t,
        |rel: Seq<char>| !is_mod(rel) && v.verdict(rel) is Merged,
        |rel: Seq<char>| !is_mod(rel) && w.verdict(rel) is Merged,
        a,
        b,
    );
    lemma_count_moved(
        s,
        t,
        |rel: Seq<char>| !is_mod(rel) && v.verdict(rel) is Conflict,
        |rel: Seq<char>| !is_mod(rel) && w.verdict(rel) is Conflict,
        a,
        b,
    );
    lemma_count_moved(
        s,
        t,
        |rel: Seq<char>| !is_mod(rel) && v.verdict(rel) is Binary,
        |rel: Seq<char>| !is_mod(rel) && w.verdict(rel) is Binary,
        a,
        b,
    );
}

proof fn lemma_lists_moved(
    v: World,
    w: World,
    s: Seq<Seq<char>>,
    t: Seq<Seq<char>>,
    p: PlanView,
    q: PlanView,
    a: Seq<char>,
    b: Seq<char>,
)
    requires
        shared_moved(v, w, s, t, a, b),
        sorted_out(v, s, p),
        sorted_out(w, t, q),
    ensures
        renames(p.keep_yours, q.keep_yours, |rel: Seq<char>| moved(rel, a, b)),
        renames(
            p.auto_merged,
            q.auto_merged,
            |m: (Seq<char>, Seq<char>)| (moved(m.0, a, b), m.1),
        ),
        renames(p.conflicts, q.conflicts, |c: ConflictView| conflict_moved(c, a, b)),
        renames(p.binary_conflicts, q.binary_conflicts, |c: BinaryView| binary_moved(c, a, b)),
{
    lemma_counts_moved(v, w, s, t, a, b);
    assert forall|rel: Seq<char>| #[trigger] compared(s, rel) implies compared(
        t,
        moved(rel, a, b),
    ) && w.verdict(moved(rel, a, b)) == v.verdict(rel) by {
        assert(s.contains(rel));
    }
    assert forall|rel: Seq<char>| #[trigger] compared(t, rel) implies compared(
        s,
        moved(rel, b, a),
    ) && v.verdict(moved(rel, b, a)) == w.verdict(rel) && moved(moved(rel, b, a), a, b) == rel by {
        assert(t.contains(rel));
        assert(s.contains(moved(rel, b, a)));
    }
    assert forall|rel: Seq<char>| #[trigger] q.keep_yours.contains(rel) implies exists|x: Seq<char>|
        #[trigger] p.keep_yours.contains(x) && moved(x, a, b) == rel by {
        assert(compared(t, rel));
        assert(p.keep_yours.contains(moved(rel, b, a)));
    }
    assert forall|m: (Seq<char>, Seq<char>)| #[trigger] p.auto_merged.contains(
        m,
    ) implies q.auto_merged.contains((moved(m.0, a, b), m.1)) by {
        assert(p.auto_merged.contains((m.0, m.1)));
        assert(compared(s, m.0));
    }
    assert forall|m: (Seq<char>, Seq<char>)| #[trigger] q.auto_merged.contains(m) implies exists|
        x: (Seq<char>, Seq<char>),
    | #[trigger] p.auto_merged.contains(x) && (moved(x.0, a, b), x.1) == m by {
        assert(q.auto_merged.contains((m.0, m.1)));
        assert(compared(t, m.0));
        assert(p.auto_merged.contains((moved(m.0, b, a), m.1)));
    }
    assert forall|c: ConflictView| #[trigger] p.conflicts.contains(c) implies q.conflicts.contains(
        conflict_moved(c, a, b),
    ) by {
        assert(compared(s, c.rel));
    }
    assert forall|c: ConflictView| #[trigger] q.conflicts.contains(c) implies exists|
        x: ConflictView,
    | #[trigger] p.conflicts.contains(x) && conflict_moved(x, a, b) == c by {
        assert(compared(t, c.rel));
        assert(p.conflicts.contains(conflict_moved(c, b, a)));
    }
    assert forall|c: BinaryView| #[trigger] p.binary_conflicts.contains(
        c,
    ) implies q.binary_conflicts.contains(binary_moved(c, a, b)) by {
        assert(compared(s, c.rel));
    }
    assert forall|c: BinaryView| #[trigger] q.binary_conflicts.contains(c) implies exists|
        x: BinaryView,
    | #[trigger] p.binary_conflicts.contains(x) && binary_moved(x, a, b) == c by {
        assert(compared(t, c.rel));
        assert(p.binary_conflicts.contains(binary_moved(c, b, a)));
    }
}

} // verus!
