//! The order in which a stable sort puts items, worked out from their keys.

use vstd::prelude::*;

use crate::text;
use crate::text::{is_at_most, same};

verus! {

/// What an item is sorted by: a number, then a text, then another text.
pub struct SortKey {
    pub major: i128,
    pub first: String,
    pub second: String,
}

/// The value of a [`SortKey`].
#[verifier::ext_equal]
pub struct Key {
    pub major: int,
    pub first: Seq<char>,
    pub second: Seq<char>,
}

impl DeepView for SortKey {
    type V = Key;

    open spec fn deep_view(&self) -> Key {
        Key { major: self.major as int, first: self.first@, second: self.second@ }
    }
}

/// Whether `a` sorts before `b` or equals it.
pub open spec fn key_at_most(a: Key, b: Key) -> bool {
    ||| a.major < b.major
    ||| a.major == b.major && text::below(a.first, b.first)
    ||| a.major == b.major && a.first == b.first && text::at_most(a.second, b.second)
}

/// How far into `order` a new item with `key` goes: behind everything that does
/// not exceed it.
pub open spec fn slot(keys: Seq<Key>, order: Seq<int>, key: Key) -> nat
    decreases order.len(),
{
    if order.len() == 0 {
        0
    } else if key_at_most(keys[order.last()], key) {
        order.len()
    } else {
        slot(keys, order.drop_last(), key)
    }
}

/// The positions of the items in sorted order.
pub open spec fn arrangement(keys: Seq<Key>) -> Seq<int>
    decreases keys.len(),
{
    if keys.len() == 0 {
        Seq::empty()
    } else {
        let before = arrangement(keys.drop_last());
        before.insert(slot(keys, before, keys.last()) as int, keys.len() - 1)
    }
}

/// The items in sorted order.
pub open spec fn arranged<T>(items: Seq<T>, keys: Seq<Key>) -> Seq<T> {
    arrangement(keys).map_values(|at: int| items[at])
}

fn is_key_at_most(a: &SortKey, b: &SortKey) -> (yes: bool)
    ensures
        yes == key_at_most(a.deep_view(), b.deep_view()),
{
    if a.major != b.major {
        a.major < b.major
    } else if same(a.first.as_str(), b.first.as_str()) {
        is_at_most(a.second.as_str(), b.second.as_str())
    } else {
        is_at_most(a.first.as_str(), b.first.as_str())
    }
}

/// The order is total.
pub proof fn lemma_key_total(a: Key, b: Key)
    ensures
        key_at_most(a, b) || key_at_most(b, a),
        key_at_most(a, a),
{
    text::lemma_at_most_total(a.first, b.first);
    text::lemma_at_most_total(a.second, b.second);
    text::lemma_at_most_total(a.second, a.second);
}

/// Keys that do not exceed each other are equal.
pub proof fn lemma_key_antisymmetric(a: Key, b: Key)
    requires
        key_at_most(a, b),
        key_at_most(b, a),
    ensures
        a == b,
{
    if a.first == b.first {
        text::lemma_at_most_antisymmetric(a.second, b.second);
    } else {
        text::lemma_at_most_antisymmetric(a.first, b.first);
    }
}

/// The order is transitive.
pub proof fn lemma_key_transitive(a: Key, b: Key, c: Key)
    requires
        key_at_most(a, b),
        key_at_most(b, c),
    ensures
        key_at_most(a, c),
{
    if a.major == b.major && b.major == c.major {
        if a.first == b.first && b.first == c.first {
            text::lemma_at_most_transitive(a.second, b.second, c.second);
        } else if a.first != b.first && b.first != c.first {
            text::lemma_at_most_transitive(a.first, b.first, c.first);
            if a.first == c.first {
                text::lemma_at_most_antisymmetric(a.first, b.first);
            }
        }
    }
}

/// Whether the positions ascend by key, and by position where keys are equal.
pub open spec fn in_order(keys: Seq<Key>, order: Seq<int>) -> bool {
    forall|i: int, j: int|
        #![trigger order[i], order[j]]
        0 <= i < j < order.len() ==> key_at_most(keys[order[i]], keys[order[j]]) && (
        keys[order[i]] == keys[order[j]] ==> order[i] < order[j])
}

/// Whether the positions are `0` to `len - 1`, each once.
pub open spec fn is_permutation(order: Seq<int>, len: nat) -> bool {
    &&& order.len() == len
    &&& forall|i: int| 0 <= i < order.len() ==> 0 <= #[trigger] order[i] < len
    &&& forall|i: int, j: int|
        0 <= i < j < order.len() ==> #[trigger] order[i] != #[trigger] order[j]
}

proof fn lemma_slot(keys: Seq<Key>, order: Seq<int>, key: Key)
    requires
        in_order(keys, order),
    ensures
        slot(keys, order, key) <= order.len(),
        forall|i: int| 0 <= i < slot(keys, order, key) ==> key_at_most(keys[#[trigger] order[i]], key),
        forall|i: int|
            slot(keys, order, key) <= i < order.len() ==> !key_at_most(
                keys[#[trigger] order[i]],
                key,
            ),
    decreases order.len(),
{
    if order.len() > 0 {
        if key_at_most(keys[order.last()], key) {
            assert forall|i: int| 0 <= i < order.len() implies key_at_most(
                keys[#[trigger] order[i]],
                key,
            ) by {
                if i < order.len() - 1 {
                    lemma_key_transitive(keys[order[i]], keys[order.last()], key);
                }
            }
        } else {
            let front = order.drop_last();
            assert(in_order(keys, front)) by {
                assert forall|i: int, j: int|
                    #![trigger front[i], front[j]]
                    0 <= i < j < front.len() implies key_at_most(keys[front[i]], keys[front[j]])
                    && (keys[front[i]] == keys[front[j]] ==> front[i] < front[j]) by {
                    assert(front[i] == order[i] && front[j] == order[j]);
                }
            }
            lemma_slot(keys, front, key);
            assert forall|i: int| 0 <= i < slot(keys, order, key) implies key_at_most(
                keys[#[trigger] order[i]],
                key,
            ) by {
                assert(front[i] == order[i]);
            }
            assert forall|i: int|
                slot(keys, order, key) <= i < order.len() implies !key_at_most(
                keys[#[trigger] order[i]],
                key,
            ) by {
                if i < order.len() - 1 {
                    assert(front[i] == order[i]);
                }
            }
        }
    }
}

/// Sorting keeps every item once, leaves the keys ascending, and items with
/// equal keys in the order in which they came.
pub proof fn law_arrangement_is_stable_sort(keys: Seq<Key>)
    ensures
        is_permutation(arrangement(keys), keys.len()),
        in_order(keys, arrangement(keys)),
    decreases keys.len(),
{
    if keys.len() > 0 {
        let n = keys.len() - 1;
        let before = arrangement(keys.drop_last());
        law_arrangement_is_stable_sort(keys.drop_last());
        assert(in_order(keys, before)) by {
            assert forall|i: int, j: int|
                #![trigger before[i], before[j]]
                0 <= i < j < before.len() implies key_at_most(keys[before[i]], keys[before[j]])
                && (keys[before[i]] == keys[before[j]] ==> before[i] < before[j]) by {
                assert(keys.drop_last()[before[i]] == keys[before[i]]);
                assert(keys.drop_last()[before[j]] == keys[before[j]]);
            }
        }
        lemma_slot(keys, before, keys.last());
        let at = slot(keys, before, keys.last()) as int;
        let after = before.insert(at, n);
        assert forall|i: int, j: int|
            #![trigger after[i], after[j]]
            0 <= i < j < after.len() implies key_at_most(keys[after[i]], keys[after[j]]) && (
        keys[after[i]] == keys[after[j]] ==> after[i] < after[j]) && after[i] != after[j] by {
            if j == at {
                assert(after[i] == before[i]);
            } else if i == at {
                assert(after[j] == before[j - 1]);
                lemma_key_total(keys[n], keys[before[j - 1]]);
            } else {
                let x = if i < at { i } else { i - 1 };
                let y = if j < at { j } else { j - 1 };
                assert(after[i] == before[x] && after[j] == before[y]);
            }
        }
        assert forall|i: int| 0 <= i < after.len() implies 0 <= #[trigger] after[i] < keys.len() by {
            if i != at {
                let x = if i < at { i } else { i - 1 };
                assert(after[i] == before[x]);
            }
        }
    }
}

proof fn lemma_arrangement_covers(keys: Seq<Key>, at: int)
    requires
        0 <= at < keys.len(),
    ensures
        arrangement(keys).contains(at),
    decreases keys.len(),
{
    law_arrangement_is_stable_sort(keys.drop_last());
    let before = arrangement(keys.drop_last());
    lemma_slot_bound(keys, before, keys.last());
    let slot = slot(keys, before, keys.last()) as int;
    let after = before.insert(slot, keys.len() - 1);
    if at == keys.len() - 1 {
        assert(after[slot] == at);
    } else {
        lemma_arrangement_covers(keys.drop_last(), at);
        let i = choose|i: int| 0 <= i < before.len() && before[i] == at;
        if i < slot {
            assert(after[i] == at);
        } else {
            assert(after[i + 1] == at);
        }
    }
}

proof fn lemma_slot_bound(keys: Seq<Key>, order: Seq<int>, key: Key)
    ensures
        slot(keys, order, key) <= order.len(),
    decreases order.len(),
{
    if order.len() > 0 && !key_at_most(keys[order.last()], key) {
        lemma_slot_bound(keys, order.drop_last(), key);
    }
}

/// Sorting loses nothing and adds nothing.
pub proof fn law_sorting_keeps_every_item<T>(items: Seq<T>, keys: Seq<Key>)
    requires
        items.len() == keys.len(),
    ensures
        arranged(items, keys).len() == items.len(),
        forall|item: T| #[trigger]
            arranged(items, keys).contains(item) <==> items.contains(item),
{
    law_arrangement_is_stable_sort(keys);
    let order = arrangement(keys);
    let sorted = arranged(items, keys);
    assert forall|item: T| #[trigger] sorted.contains(item) <==> items.contains(item) by {
        if sorted.contains(item) {
            let i = choose|i: int| 0 <= i < sorted.len() && sorted[i] == item;
            assert(items[order[i]] == item);
        }
        if items.contains(item) {
            let at = choose|at: int| 0 <= at < items.len() && items[at] == item;
            lemma_arrangement_covers(keys, at);
            let i = choose|i: int| 0 <= i < order.len() && order[i] == at;
            assert(sorted[i] == item);
        }
    }
}

/// Whether no two items have the same key.
pub open spec fn distinct<T>(items: Seq<T>, key: spec_fn(T) -> Key) -> bool {
    forall|i: int, j: int|
        0 <= i < j < items.len() ==> key(#[trigger] items[i]) != key(#[trigger] items[j])
}

/// Whether the items ascend by key, no two alike.
spec fn climbing<T>(items: Seq<T>, key: spec_fn(T) -> Key) -> bool {
    forall|i: int, j: int|
        0 <= i < j < items.len() ==> key_at_most(key(#[trigger] items[i]), key(#[trigger] items[j]))
            && key(items[i]) != key(items[j])
}

proof fn lemma_arranged_climbs<T>(items: Seq<T>, key: spec_fn(T) -> Key)
    requires
        distinct(items, key),
    ensures
        climbing(arranged(items, items.map_values(key)), key),
{
    let keys = items.map_values(key);
    law_arrangement_is_stable_sort(keys);
    let order = arrangement(keys);
    let sorted = arranged(items, keys);
    assert forall|i: int, j: int| 0 <= i < j < sorted.len() implies key_at_most(
        key(#[trigger] sorted[i]),
        key(#[trigger] sorted[j]),
    ) && key(sorted[i]) != key(sorted[j]) by {
        assert(sorted[i] == items[order[i]] && sorted[j] == items[order[j]]);
        assert(keys[order[i]] == key(items[order[i]]) && keys[order[j]] == key(items[order[j]]));
        if order[i] < order[j] {
            assert(key(items[order[i]]) != key(items[order[j]]));
        } else {
            assert(key(items[order[j]]) != key(items[order[i]]));
        }
    }
}

proof fn lemma_same_climb<T>(a: Seq<T>, b: Seq<T>, key: spec_fn(T) -> Key)
    requires
        climbing(a, key),
        climbing(b, key),
        forall|item: T| #[trigger] a.contains(item) <==> b.contains(item),
    ensures
        a == b,
    decreases a.len() + b.len(),
{
    if a.len() == 0 {
        if b.len() > 0 {
            assert(b.contains(b[0]));
            assert(a.contains(b[0]));
        }
        assert(a =~= b);
    } else if b.len() == 0 {
        assert(a.contains(a[0]));
        assert(b.contains(a[0]));
    } else {
        let x = a.last();
        let y = b.last();
        assert(a.contains(x) && a[a.len() - 1] == x);
        assert(b.contains(y) && b[b.len() - 1] == y);
        assert(a.contains(y) && b.contains(x));
        let p = choose|p: int| 0 <= p < b.len() && b[p] == x;
        let q = choose|q: int| 0 <= q < a.len() && a[q] == y;
        if p < b.len() - 1 {
            assert(key_at_most(key(b[p]), key(b[b.len() - 1])) && key(b[p]) != key(b[b.len() - 1]));
            if q < a.len() - 1 {
                assert(key_at_most(key(a[q]), key(a[a.len() - 1])));
                lemma_key_antisymmetric(key(x), key(y));
            }
        }
        assert(x == y);
        let c = a.drop_last();
        let d = b.drop_last();
        assert(c.push(x) =~= a && d.push(y) =~= b);
        assert forall|item: T| #[trigger] c.contains(item) <==> d.contains(item) by {
            if c.contains(item) {
                let i = choose|i: int| 0 <= i < c.len() && c[i] == item;
                assert(a[i] == item && key(a[i]) != key(a[a.len() - 1]));
                assert(a.contains(item));
                let j = choose|j: int| 0 <= j < b.len() && b[j] == item;
                assert(d[j] == item);
            }
            if d.contains(item) {
                let j = choose|j: int| 0 <= j < d.len() && d[j] == item;
                assert(b[j] == item && key(b[j]) != key(b[b.len() - 1]));
                assert(b.contains(item));
                assert(a.contains(item));
                let i = choose|i: int| 0 <= i < a.len() && a[i] == item;
                assert(c[i] == item);
            }
        }
        lemma_same_climb(c, d, key);
    }
}

/// Where no two items have the same key, the order in which they arrive makes no
/// difference to the order in which they are sorted.
pub proof fn law_order_of_arrival_is_irrelevant<T>(
    items: Seq<T>,
    shuffled: Seq<T>,
    key: spec_fn(T) -> Key,
)
    requires
        distinct(items, key),
        distinct(shuffled, key),
        forall|item: T| #[trigger] items.contains(item) <==> shuffled.contains(item),
    ensures
        arranged(items, items.map_values(key)) == arranged(shuffled, shuffled.map_values(key)),
{
    let a = arranged(items, items.map_values(key));
    let b = arranged(shuffled, shuffled.map_values(key));
    lemma_arranged_climbs(items, key);
    lemma_arranged_climbs(shuffled, key);
    law_sorting_keeps_every_item(items, items.map_values(key));
    law_sorting_keeps_every_item(shuffled, shuffled.map_values(key));
    assert forall|item: T| #[trigger] a.contains(item) <==> b.contains(item) by {
        assert(items.contains(item) <==> shuffled.contains(item));
    }
    lemma_same_climb(a, b, key);
}

/// The positions of the items in sorted order.
pub fn arrange(keys: &Vec<SortKey>) -> (order: Vec<usize>)
    ensures
        order@.map_values(|at: usize| at as int) == arrangement(keys.deep_view()),
        order@.len() == keys@.len(),
        forall|i: int| 0 <= i < order@.len() ==> #[trigger] order@[i] < keys@.len(),
{
    let ghost all = keys.deep_view();
    let mut order: Vec<usize> = Vec::new();
    let mut n: usize = 0;
    proof {
        assert(order@.map_values(|at: usize| at as int) =~= arrangement(all.take(0)));
    }
    while n < keys.len()
        invariant
            n <= keys@.len(),
            all == keys.deep_view(),
            order@.len() == n,
            forall|i: int| 0 <= i < order@.len() ==> #[trigger] order@[i] < n,
            order@.map_values(|at: usize| at as int) == arrangement(all.take(n as int)),
        decreases keys@.len() - n,
    {
        let ghost before = order@.map_values(|at: usize| at as int);
        let ghost some = all.take(n + 1);
        proof {
            assert(some.drop_last() =~= all.take(n as int));
            assert(some.last() == keys@[n as int].deep_view());
            assert(before.take(n as int) =~= before);
        }
        let mut at: usize = n;
        while at > 0 && !is_key_at_most(&keys[order[at - 1]], &keys[n])
            invariant
                at <= n < keys@.len(),
                order@.len() == n,
                all == keys.deep_view(),
                some == all.take(n + 1),
                before == order@.map_values(|at: usize| at as int),
                forall|i: int| 0 <= i < order@.len() ==> #[trigger] order@[i] < n,
                slot(some, before, some.last()) == slot(some, before.take(at as int), some.last()),
                some.last() == keys@[n as int].deep_view(),
            decreases at,
        {
            proof {
                assert(before.take(at as int).drop_last() =~= before.take(at - 1));
                assert(before.take(at as int).last() == order@[at - 1]);
                assert(some[order@[at - 1] as int] == keys@[order@[at - 1] as int].deep_view());
            }
            at -= 1;
        }
        proof {
            if at > 0 {
                assert(before.take(at as int).last() == order@[at - 1]);
                assert(some[order@[at - 1] as int] == keys@[order@[at - 1] as int].deep_view());
            }
            assert(at == slot(some, before, some.last()));
        }
        order.insert(at, n);
        proof {
            assert(order@.map_values(|at: usize| at as int) =~= before.insert(
                at as int,
                n as int,
            ));
            assert(arrangement(some) == before.insert(at as int, n as int));
        }
        n += 1;
    }
    proof {
        assert(all.take(n as int) =~= all);
    }
    order
}

} // verus!
