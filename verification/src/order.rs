//! Stable sorting by a number and then by a text.
use vstd::prelude::*;

use crate::text::{before, is_before};
use crate::textmap::{law_order_is_total, law_order_is_transitive};

verus! {

/// What items are sorted by: the smaller number first, then the earlier text.
pub struct SortKey {
    pub number: u64,
    pub text: String,
}

impl View for SortKey {
    type V = (u64, Seq<char>);

    open spec fn view(&self) -> (u64, Seq<char>) {
        (self.number, self.text@)
    }
}

pub open spec fn precedes(a: (u64, Seq<char>), b: (u64, Seq<char>)) -> bool {
    a.0 < b.0 || (a.0 == b.0 && before(a.1, b.1))
}

/// The place behind everything that `k` does not precede, seen from the end.
pub open spec fn slot(keys: Seq<(u64, Seq<char>)>, k: (u64, Seq<char>)) -> int
    decreases keys.len(),
{
    if keys.len() == 0 || !precedes(k, keys.last()) {
        keys.len() as int
    } else {
        slot(keys.drop_last(), k)
    }
}

pub open spec fn keys_at(keys: Seq<(u64, Seq<char>)>, order: Seq<int>) -> Seq<(u64, Seq<char>)> {
    order.map_values(|i: int| keys[i])
}

/// The positions of the keys in sorted order; equal keys keep their order.
pub open spec fn order_of(keys: Seq<(u64, Seq<char>)>) -> Seq<int>
    decreases keys.len(),
{
    if keys.len() == 0 {
        Seq::empty()
    } else {
        let init = order_of(keys.drop_last());
        init.insert(slot(keys_at(keys, init), keys.last()), keys.len() - 1)
    }
}

/// The items in the order of their keys.
pub open spec fn sorted<T>(items: Seq<T>, keys: Seq<(u64, Seq<char>)>) -> Seq<T> {
    order_of(keys).map_values(|i: int| items[i])
}

proof fn lemma_slot(keys: Seq<(u64, Seq<char>)>, k: (u64, Seq<char>))
    ensures
        0 <= slot(keys, k) <= keys.len(),
        slot(keys, k) > 0 ==> !precedes(k, keys[slot(keys, k) - 1]),
        forall|i: int| slot(keys, k) <= i < keys.len() ==> precedes(k, #[trigger] keys[i]),
    decreases keys.len(),
{
    if keys.len() > 0 && precedes(k, keys.last()) {
        lemma_slot(keys.drop_last(), k);
        assert forall|i: int| slot(keys, k) <= i < keys.len() implies precedes(
            k,
            #[trigger] keys[i],
        ) by {
            if i < keys.len() - 1 {
                assert(keys.drop_last()[i] == keys[i]);
            }
        }
    }
}

/// Sorting drops nothing and doubles nothing.
pub proof fn law_sorting_keeps_every_item(keys: Seq<(u64, Seq<char>)>)
    ensures
        order_of(keys).len() == keys.len(),
        order_of(keys).no_duplicates(),
        forall|i: int| order_of(keys).contains(i) <==> 0 <= i < keys.len(),
    decreases keys.len(),
{
    if keys.len() > 0 {
        let init = order_of(keys.drop_last());
        law_sorting_keeps_every_item(keys.drop_last());
        let n = keys.len() - 1;
        let s = slot(keys_at(keys, init), keys.last());
        lemma_slot(keys_at(keys, init), keys.last());
        let out = init.insert(s, n);
        assert(out == order_of(keys));
        assert forall|i: int| out.contains(i) <==> 0 <= i < keys.len() by {
            if init.contains(i) {
                let p = init.index_of(i);
                assert(out[if p < s { p } else { p + 1 }] == i);
            }
            if i == n {
                assert(out[s] == n);
            }
            if out.contains(i) {
                let p = out.index_of(i);
                if p < s {
                    assert(init[p] == i);
                } else if p > s {
                    assert(init[p - 1] == i);
                }
            }
        }
        assert forall|p: int, q: int| 0 <= p < out.len() && 0 <= q < out.len() && p != q implies out[p]
            != out[q] by {
            if p != s {
                let p0 = if p < s { p } else { p - 1 };
                assert(init.contains(init[p0]));
            }
            if q != s {
                let q0 = if q < s { q } else { q - 1 };
                assert(init.contains(init[q0]));
            }
        }
    }
}

/// No item precedes one in front of it, and of two items with keys neither of
/// which precedes the other, the one that was first stays first.
pub proof fn law_sorting_is_stable(keys: Seq<(u64, Seq<char>)>)
    ensures
        forall|p: int, q: int|
            0 <= p < q < order_of(keys).len() ==> {
                let a = #[trigger] order_of(keys)[p];
                let b = #[trigger] order_of(keys)[q];
                precedes(keys[a], keys[b]) || (!precedes(keys[b], keys[a]) && a < b)
            },
    decreases keys.len(),
{
    if keys.len() > 0 {
        let short = keys.drop_last();
        let init = order_of(short);
        law_sorting_is_stable(short);
        law_sorting_keeps_every_item(short);
        let n = keys.len() - 1;
        let at = keys_at(keys, init);
        let s = slot(at, keys.last());
        lemma_slot(at, keys.last());
        let out = init.insert(s, n);
        assert(out == order_of(keys));
        assert forall|p: int, q: int| 0 <= p < q < out.len() implies {
            let a = #[trigger] out[p];
            let b = #[trigger] out[q];
            precedes(keys[a], keys[b]) || (!precedes(keys[b], keys[a]) && a < b)
        } by {
            let p0 = if p < s { p } else { p - 1 };
            let q0 = if q < s { q } else { q - 1 };
            if p == s {
                assert(precedes(keys.last(), at[q0]));
            } else if q == s {
                assert(init.contains(init[p0]));
                let last = at[s - 1];
                if p0 < s - 1 {
                    assert(init.contains(init[s - 1]));
                    let a = init[p0];
                    let b = init[s - 1];
                    assert(short[a] == keys[a] && short[b] == keys[b]);
                    lemma_precedes(keys[a], keys[b], keys.last());
                }
            } else {
                assert(init.contains(init[p0]));
                assert(init.contains(init[q0]));
                assert(short[init[p0]] == keys[init[p0]]);
                assert(short[init[q0]] == keys[init[q0]]);
            }
        }
    }
}

/// What precedes a key that `c` does not precede is not preceded by `c`.
proof fn lemma_precedes(a: (u64, Seq<char>), b: (u64, Seq<char>), c: (u64, Seq<char>))
    requires
        precedes(a, b) || !precedes(b, a),
        !precedes(c, b),
    ensures
        !precedes(c, a),
{
    law_order_is_total(a.1, b.1);
    law_order_is_total(b.1, c.1);
    law_order_is_total(a.1, c.1);
    if precedes(c, a) && a.0 == b.0 && b.0 == c.0 {
        if a.1 != b.1 && before(a.1, b.1) {
            law_order_is_transitive(c.1, a.1, b.1);
        }
    }
}

/// Sorting a list of as many keys keeps what is in it.
pub proof fn lemma_sorted_contains<T>(items: Seq<T>, keys: Seq<(u64, Seq<char>)>)
    requires
        items.len() == keys.len(),
    ensures
        sorted(items, keys).len() == items.len(),
        forall|x: T|
            #![trigger sorted(items, keys).contains(x)]
            #![trigger items.contains(x)]
            sorted(items, keys).contains(x) <==> items.contains(x),
{
    law_sorting_keeps_every_item(keys);
    let order = order_of(keys);
    let out = sorted(items, keys);
    assert forall|x: T| out.contains(x) <==> items.contains(x) by {
        if out.contains(x) {
            let p = out.index_of(x);
            assert(order.contains(order[p]));
            assert(items[order[p]] == x);
        }
        if items.contains(x) {
            let i = items.index_of(x);
            assert(order.contains(i));
            assert(out[order.index_of(i)] == x);
        }
    }
}

fn key_precedes(a: &SortKey, b: &SortKey) -> (r: bool)
    ensures
        r == precedes(a@, b@),
{
    a.number < b.number || (a.number == b.number && is_before(a.text.as_str(), b.text.as_str()))
}

/// Sorting and taking views can be done in either order.
pub proof fn lemma_sorted_map<T, U>(items: Seq<T>, keys: Seq<(u64, Seq<char>)>, f: spec_fn(T) -> U)
    requires
        items.len() == keys.len(),
    ensures
        sorted(items, keys).map_values(f) == sorted(items.map_values(f), keys),
{
    law_sorting_keeps_every_item(keys);
    let order = order_of(keys);
    assert forall|j: int| 0 <= j < order.len() implies 0 <= #[trigger] order[j] < items.len() by {
        assert(order.contains(order[j]));
    }
    assert(sorted(items, keys).map_values(f) =~= sorted(items.map_values(f), keys));
}

pub open spec fn key_views(keys: Seq<SortKey>) -> Seq<(u64, Seq<char>)> {
    keys.map_values(|k: SortKey| k@)
}

/// Sort `items` by `keys`, one key for each item.
pub(crate) fn sort_by_keys<T>(items: Vec<T>, keys: Vec<SortKey>) -> (r: Vec<T>)
    requires
        items.len() == keys.len(),
    ensures
        r@ == sorted(items@, key_views(keys@)),
{
    let ghost all = items@;
    let ghost ks = key_views(keys@);
    let mut items = items;
    let mut keys = keys;
    let mut out: Vec<T> = Vec::new();
    let mut out_keys: Vec<SortKey> = Vec::new();
    let mut n: usize = 0;
    let total = items.len();
    proof {
        assert(all.skip(0) =~= all);
        assert(ks.skip(0) =~= ks);
        assert(ks.take(0) =~= Seq::empty());
        assert(out@ =~= order_of(ks.take(0)).map_values(|i: int| all[i]));
        assert(key_views(out_keys@) =~= keys_at(ks, order_of(ks.take(0))));
    }
    while n < total
        invariant
            n <= total,
            total == all.len(),
            total == ks.len(),
            items@ == all.skip(n as int),
            key_views(keys@) == ks.skip(n as int),
            out@ == order_of(ks.take(n as int)).map_values(|i: int| all[i]),
            key_views(out_keys@) == keys_at(ks, order_of(ks.take(n as int))),
        decreases total - n,
    {
        let ghost so_far = order_of(ks.take(n as int));
        assert(keys@.len() == key_views(keys@).len());
        let item = items.remove(0);
        let ghost k0 = keys@;
        let key = keys.remove(0);
        proof {
            assert(key_views(k0)[0] == ks[n as int]);
            assert(key@ == ks[n as int]);
            assert(items@ =~= all.skip(n + 1));
            assert forall|i: int| 0 <= i < keys@.len() implies #[trigger] key_views(keys@)[i]
                == ks.skip(n + 1)[i] by {
                assert(key_views(k0)[i + 1] == ks.skip(n as int)[i + 1]);
            }
            assert(key_views(keys@) =~= ks.skip(n + 1));
            law_sorting_keeps_every_item(ks.take(n as int));
        }
        let ghost placed = key_views(out_keys@);
        let mut at: usize = out.len();
        assert(placed.take(at as int) =~= placed);
        while at > 0 && key_precedes(&key, &out_keys[at - 1])
            invariant
                at <= out.len(),
                out.len() == out_keys.len(),
                placed == key_views(out_keys@),
                slot(placed, key@) == slot(placed.take(at as int), key@),
            decreases at,
        {
            assert(placed.take(at as int).drop_last() =~= placed.take(at - 1));
            assert(placed.take(at as int).last() == out_keys@[at - 1]@);
            at -= 1;
        }
        proof {
            if at > 0 {
                assert(placed.take(at as int).last() == out_keys@[at - 1]@);
            }
            assert(slot(placed, key@) == at);
            let short = ks.take(n as int);
            let long = ks.take(n + 1);
            assert(long.drop_last() =~= short);
            assert(keys_at(long, so_far) =~= keys_at(ks, so_far)) by {
                assert forall|p: int| 0 <= p < so_far.len() implies long[so_far[p]]
                    == ks[so_far[p]] by {
                    assert(so_far.contains(so_far[p]));
                }
            }
            assert(long.last() == key@);
            assert(order_of(long) == so_far.insert(at as int, n as int));
        }
        let ghost o0 = out@;
        let ghost q0 = out_keys@;
        out.insert(at, item);
        out_keys.insert(at, key);
        proof {
            let long = ks.take(n + 1);
            assert(out@ =~= order_of(long).map_values(|i: int| all[i]));
            assert(key_views(out_keys@) =~= key_views(q0).insert(at as int, ks[n as int]));
            assert(keys_at(ks, order_of(long)) =~= keys_at(ks, so_far).insert(
                at as int,
                ks[n as int],
            ));
        }
        n += 1;
    }
    assert(ks.take(n as int) =~= ks);
    out
}

/// The smaller number comes first, and of two with the same number the earlier text.
pub proof fn law_what_comes_first<T>(
    items: Seq<T>,
    keys: Seq<(u64, Seq<char>)>,
    p: int,
    q: int,
)
    requires
        items.len() == keys.len(),
        0 <= p < q < items.len(),
    ensures
        ({
            let order = order_of(keys);
            let a = order[p];
            let b = order[q];
            &&& sorted(items, keys)[p] == items[a] && sorted(items, keys)[q] == items[b]
            &&& 0 <= a < keys.len() && 0 <= b < keys.len() && a != b
            &&& keys[a].0 <= keys[b].0
            &&& keys[a].0 == keys[b].0 ==> !before(keys[b].1, keys[a].1)
            &&& keys[a] == keys[b] ==> a < b
        }),
{
    law_sorting_keeps_every_item(keys);
    law_sorting_is_stable(keys);
    let order = order_of(keys);
    assert(order.contains(order[p]) && order.contains(order[q]));
    let a = order[p];
    let b = order[q];
    law_order_is_total(keys[a].1, keys[b].1);
}

} // verus!
