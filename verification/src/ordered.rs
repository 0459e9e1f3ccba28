//! A map from texts to values, kept in the order of its keys.

use vstd::prelude::*;

use crate::text;
use crate::text::{is_at_most, same};

verus! {

/// Every key comes before the ones after it, so none occurs twice.
pub open spec fn ascending<X>(entries: Seq<(Seq<char>, X)>) -> bool {
    forall|i: int, j: int|
        0 <= i < j < entries.len() ==> text::below(#[trigger] entries[i].0, #[trigger] entries[j].0)
}

/// How many keys come before `key`.
pub open spec fn rank<X>(entries: Seq<(Seq<char>, X)>, key: Seq<char>) -> nat
    decreases entries.len(),
{
    if entries.len() == 0 {
        0
    } else if text::below(entries[0].0, key) {
        1 + rank(entries.skip(1), key)
    } else {
        0
    }
}

/// Whether `key` stands in the map.
pub open spec fn holds<X>(entries: Seq<(Seq<char>, X)>, key: Seq<char>) -> bool {
    rank(entries, key) < entries.len() && entries[rank(entries, key) as int].0 == key
}

/// The value under `key`.
pub open spec fn lookup<X>(entries: Seq<(Seq<char>, X)>, key: Seq<char>) -> Option<X> {
    if holds(entries, key) {
        Some(entries[rank(entries, key) as int].1)
    } else {
        None
    }
}

/// The map with every value replaced by what `f` makes of it.
pub open spec fn mapped<X, Y>(entries: Seq<(Seq<char>, X)>, f: spec_fn(X) -> Y) -> Seq<
    (Seq<char>, Y),
> {
    entries.map_values(|entry: (Seq<char>, X)| (entry.0, f(entry.1)))
}

/// Which keys stand in a map does not depend on the values.
pub proof fn lemma_mapped_holds<X, Y>(
    entries: Seq<(Seq<char>, X)>,
    f: spec_fn(X) -> Y,
    key: Seq<char>,
)
    ensures
        rank(mapped(entries, f), key) == rank(entries, key),
        holds(mapped(entries, f), key) == holds(entries, key),
        lookup(mapped(entries, f), key) == (match lookup(entries, key) {
            Some(value) => Some(f(value)),
            None => None,
        }),
{
    lemma_rank(entries, key);
    let all = mapped(entries, f);
    let at = rank(entries, key) as int;
    assert forall|i: int| 0 <= i < at implies text::below(#[trigger] all[i].0, key) by {
        assert(text::below(entries[i].0, key));
    }
    lemma_rank_is(all, key, at);
}

/// The map with `value` under `key`, in place of what was there.
pub open spec fn inserted<X>(
    entries: Seq<(Seq<char>, X)>,
    key: Seq<char>,
    value: X,
) -> Seq<(Seq<char>, X)> {
    let at = rank(entries, key) as int;
    if holds(entries, key) {
        entries.update(at, (key, value))
    } else {
        entries.insert(at, (key, value))
    }
}

/// The map without `key`.
pub open spec fn removed<X>(entries: Seq<(Seq<char>, X)>, key: Seq<char>) -> Seq<(Seq<char>, X)> {
    if holds(entries, key) {
        entries.remove(rank(entries, key) as int)
    } else {
        entries
    }
}

/// The entries whose keys are among `keys`.
pub open spec fn retained<X>(entries: Seq<(Seq<char>, X)>, keys: Seq<Seq<char>>) -> Seq<
    (Seq<char>, X),
> {
    entries.filter(|entry: (Seq<char>, X)| keys.contains(entry.0))
}

proof fn lemma_rank<X>(entries: Seq<(Seq<char>, X)>, key: Seq<char>)
    ensures
        rank(entries, key) <= entries.len(),
        forall|i: int| 0 <= i < rank(entries, key) ==> text::below(#[trigger] entries[i].0, key),
        rank(entries, key) < entries.len() ==> !text::below(entries[rank(entries, key) as int].0, key),
    decreases entries.len(),
{
    if entries.len() > 0 && text::below(entries[0].0, key) {
        lemma_rank(entries.skip(1), key);
        assert forall|i: int| 0 <= i < rank(entries, key) implies text::below(
            #[trigger] entries[i].0,
            key,
        ) by {
            if i > 0 {
                assert(entries.skip(1)[i - 1] == entries[i]);
            }
        }
    }
}

proof fn lemma_rank_is<X>(entries: Seq<(Seq<char>, X)>, key: Seq<char>, at: int)
    requires
        0 <= at <= entries.len(),
        forall|i: int| 0 <= i < at ==> text::below(#[trigger] entries[i].0, key),
        at < entries.len() ==> !text::below(entries[at].0, key),
    ensures
        rank(entries, key) == at,
{
    lemma_rank(entries, key);
    if rank(entries, key) < at {
        assert(text::below(entries[rank(entries, key) as int].0, key));
    }
}

proof fn lemma_below_transitive(a: Seq<char>, b: Seq<char>, c: Seq<char>)
    requires
        text::below(a, b),
        text::at_most(b, c) || text::below(b, c),
    ensures
        text::below(a, c),
{
    text::lemma_at_most_transitive(a, b, c);
    if a == c {
        text::lemma_at_most_antisymmetric(a, b);
    }
}

proof fn lemma_not_below(a: Seq<char>, b: Seq<char>)
    requires
        !text::below(a, b),
        a != b,
    ensures
        text::below(b, a),
{
    text::lemma_at_most_total(a, b);
}

/// In an ascending map a key that occurs is the one that its rank points at.
pub proof fn lemma_holds<X>(entries: Seq<(Seq<char>, X)>, at: int)
    requires
        ascending(entries),
        0 <= at < entries.len(),
    ensures
        rank(entries, entries[at].0) == at,
        holds(entries, entries[at].0),
        lookup(entries, entries[at].0) == Some(entries[at].1),
{
    lemma_rank_is(entries, entries[at].0, at);
}

/// Inserting keeps the keys ascending; afterwards the key has the new value and
/// every other key the value it had.
pub proof fn law_insert_then_lookup<X>(
    entries: Seq<(Seq<char>, X)>,
    key: Seq<char>,
    value: X,
    other: Seq<char>,
)
    requires
        ascending(entries),
    ensures
        ascending(inserted(entries, key, value)),
        lookup(inserted(entries, key, value), key) == Some(value),
        other != key ==> lookup(inserted(entries, key, value), other) == lookup(entries, other),
{
    let at = rank(entries, key) as int;
    let after = inserted(entries, key, value);
    lemma_rank(entries, key);
    assert forall|i: int, j: int| 0 <= i < j < after.len() implies text::below(
        #[trigger] after[i].0,
        #[trigger] after[j].0,
    ) by {
        if !holds(entries, key) {
            if j == at {
                assert(text::below(entries[i].0, key));
            } else if i == at {
                lemma_not_below(entries[at].0, key);
                if j - 1 > at {
                    lemma_below_transitive(key, entries[at].0, entries[j - 1].0);
                }
            }
        }
    }
    lemma_holds(after, at);
    if other != key {
        let was = rank(entries, other) as int;
        lemma_rank(entries, other);
        let now = rank(after, other) as int;
        lemma_rank(after, other);
        if holds(entries, other) {
            if holds(entries, key) {
                lemma_holds(after, was);
            } else if was < at {
                lemma_holds(after, was);
            } else {
                lemma_holds(after, was + 1);
            }
        } else if holds(after, other) {
            if holds(entries, key) {
                lemma_holds(entries, now);
            } else if now < at {
                lemma_holds(entries, now);
            } else {
                lemma_holds(entries, now - 1);
            }
        }
    }
}

/// What stands in a map after an insertion is the new entry or stood there before.
pub proof fn lemma_inserted_items<X>(entries: Seq<(Seq<char>, X)>, key: Seq<char>, value: X)
    ensures
        forall|i: int|
            0 <= i < inserted(entries, key, value).len() ==> #[trigger] inserted(
                entries,
                key,
                value,
            )[i] == (key, value) || entries.contains(inserted(entries, key, value)[i]),
{
    let at = rank(entries, key) as int;
    let after = inserted(entries, key, value);
    lemma_rank(entries, key);
    assert forall|i: int| 0 <= i < after.len() implies #[trigger] after[i] == (key, value)
        || entries.contains(after[i]) by {
        if i < at || holds(entries, key) {
            if i != at {
                assert(entries[i] == after[i]);
            }
        } else if i > at {
            assert(entries[i - 1] == after[i]);
        }
    }
}

/// Removing keeps the keys ascending; afterwards the key is gone and every
/// other key has the value it had.
pub proof fn law_remove_then_lookup<X>(
    entries: Seq<(Seq<char>, X)>,
    key: Seq<char>,
    other: Seq<char>,
)
    requires
        ascending(entries),
    ensures
        ascending(removed(entries, key)),
        lookup(removed(entries, key), key) is None,
        other != key ==> lookup(removed(entries, key), other) == lookup(entries, other),
{
    let at = rank(entries, key) as int;
    let after = removed(entries, key);
    lemma_rank(entries, key);
    if holds(entries, key) {
        if holds(after, key) {
            let now = rank(after, key) as int;
            lemma_rank(after, key);
            if now < at {
                assert(text::below(entries[now].0, entries[at].0));
            } else {
                assert(text::below(entries[at].0, entries[now + 1].0));
            }
        }
        if other != key {
            lemma_rank(entries, other);
            lemma_rank(after, other);
            let was = rank(entries, other) as int;
            let now = rank(after, other) as int;
            if holds(entries, other) {
                lemma_holds(after, if was < at { was } else { was - 1 });
            } else if holds(after, other) {
                lemma_holds(entries, if now < at { now } else { now + 1 });
            }
        }
    }
}

proof fn lemma_retained<X>(entries: Seq<(Seq<char>, X)>, keys: Seq<Seq<char>>)
    requires
        ascending(entries),
    ensures
        ascending(retained(entries, keys)),
        forall|i: int|
            0 <= i < retained(entries, keys).len() ==> exists|j: int|
                0 <= j < entries.len() && entries[j] == #[trigger] retained(entries, keys)[i],
    decreases entries.len(),
{
    reveal(Seq::filter);
    let kept = retained(entries, keys);
    if entries.len() > 0 {
        let front = entries.drop_last();
        assert forall|i: int, j: int| 0 <= i < j < front.len() implies text::below(
            #[trigger] front[i].0,
            #[trigger] front[j].0,
        ) by {
            assert(text::below(entries[i].0, entries[j].0));
        }
        lemma_retained(front, keys);
        let before = retained(front, keys);
        assert forall|i: int| 0 <= i < before.len() implies exists|j: int|
            0 <= j < entries.len() - 1 && entries[j] == #[trigger] before[i] by {
            let j = choose|j: int| 0 <= j < front.len() && front[j] == before[i];
            assert(entries[j] == before[i]);
        }
        assert forall|i: int| 0 <= i < kept.len() implies exists|j: int|
            0 <= j < entries.len() && entries[j] == #[trigger] kept[i] by {
            if i < before.len() {
                assert(kept[i] == before[i]);
            } else {
                assert(entries[entries.len() - 1] == kept[i]);
            }
        }
        assert forall|i: int, j: int| 0 <= i < j < kept.len() implies text::below(
            #[trigger] kept[i].0,
            #[trigger] kept[j].0,
        ) by {
            assert(kept[i] == before[i]);
            if j < before.len() {
                assert(kept[j] == before[j]);
            } else {
                assert(exists|k: int| 0 <= k < entries.len() - 1 && entries[k] == before[i]);
            }
        }
    }
}

proof fn lemma_retained_holds<X>(entries: Seq<(Seq<char>, X)>, keys: Seq<Seq<char>>, i: int)
    requires
        0 <= i < entries.len(),
        keys.contains(entries[i].0),
    ensures
        exists|j: int|
            0 <= j < retained(entries, keys).len() && #[trigger] retained(entries, keys)[j]
                == entries[i],
    decreases entries.len(),
{
    reveal(Seq::filter);
    let kept = retained(entries, keys);
    if i == entries.len() - 1 {
        assert(kept[kept.len() - 1] == entries[i]);
    } else {
        let front = entries.drop_last();
        lemma_retained_holds(front, keys, i);
        let before = retained(front, keys);
        let j = choose|j: int| 0 <= j < before.len() && #[trigger] before[j] == front[i];
        assert(kept[j] == entries[i]);
    }
}

proof fn lemma_retained_keys<X>(entries: Seq<(Seq<char>, X)>, keys: Seq<Seq<char>>, i: int)
    requires
        0 <= i < retained(entries, keys).len(),
    ensures
        keys.contains(retained(entries, keys)[i].0),
    decreases entries.len(),
{
    reveal(Seq::filter);
    if entries.len() > 0 {
        let before = retained(entries.drop_last(), keys);
        if i < before.len() {
            lemma_retained_keys(entries.drop_last(), keys, i);
        }
    }
}

/// Retaining keeps the keys ascending; a key that is among those kept has the
/// value it had, and any other is gone.
pub proof fn law_retain_then_lookup<X>(
    entries: Seq<(Seq<char>, X)>,
    keys: Seq<Seq<char>>,
    key: Seq<char>,
)
    requires
        ascending(entries),
    ensures
        ascending(retained(entries, keys)),
        lookup(retained(entries, keys), key) == (if keys.contains(key) {
            lookup(entries, key)
        } else {
            None
        }),
{
    lemma_retained(entries, keys);
    let kept = retained(entries, keys);
    lemma_rank(entries, key);
    lemma_rank(kept, key);
    if holds(kept, key) {
        let at = rank(kept, key) as int;
        lemma_retained_keys(entries, keys, at);
        let j = choose|j: int| 0 <= j < entries.len() && entries[j] == kept[at];
        lemma_holds(entries, j);
    }
    if holds(entries, key) && keys.contains(key) {
        let at = rank(entries, key) as int;
        lemma_retained_holds(entries, keys, at);
        let j = choose|j: int| 0 <= j < kept.len() && #[trigger] kept[j] == entries[at];
        lemma_holds(kept, j);
    }
}

/// Inserting and changing the values commute.
proof fn lemma_mapped_inserted<X, Y>(
    entries: Seq<(Seq<char>, X)>,
    f: spec_fn(X) -> Y,
    key: Seq<char>,
    value: X,
)
    ensures
        mapped(inserted(entries, key, value), f) == inserted(mapped(entries, f), key, f(value)),
{
    lemma_mapped_holds(entries, f, key);
    lemma_rank(entries, key);
    assert(mapped(inserted(entries, key, value), f) =~= inserted(
        mapped(entries, f),
        key,
        f(value),
    ));
}

/// Removing and changing the values commute.
proof fn lemma_mapped_removed<X, Y>(
    entries: Seq<(Seq<char>, X)>,
    f: spec_fn(X) -> Y,
    key: Seq<char>,
)
    ensures
        mapped(removed(entries, key), f) == removed(mapped(entries, f), key),
{
    lemma_mapped_holds(entries, f, key);
    lemma_rank(entries, key);
    assert(mapped(removed(entries, key), f) =~= removed(mapped(entries, f), key));
}

/// Retaining and changing the values commute.
proof fn lemma_mapped_retained<X, Y>(
    entries: Seq<(Seq<char>, X)>,
    f: spec_fn(X) -> Y,
    keys: Seq<Seq<char>>,
)
    ensures
        mapped(retained(entries, keys), f) == retained(mapped(entries, f), keys),
    decreases entries.len(),
{
    reveal(Seq::filter);
    if entries.len() > 0 {
        lemma_mapped_retained(entries.drop_last(), f, keys);
        assert(mapped(entries, f).drop_last() =~= mapped(entries.drop_last(), f));
        assert(mapped(retained(entries, keys), f) =~= retained(mapped(entries, f), keys));
    } else {
        assert(mapped(retained(entries, keys), f) =~= retained(mapped(entries, f), keys));
    }
}

/// A map from texts to values, kept in the order of its keys.
#[derive(Debug, PartialEq, Eq)]
pub struct TextMap<V> {
    entries: Vec<(String, V)>,
}

/// The entries of a list of pairs, keys by their characters.
pub open spec fn keyed<V>(entries: Seq<(String, V)>) -> Seq<(Seq<char>, V)> {
    entries.map_values(|entry: (String, V)| (entry.0@, entry.1))
}

impl<V> View for TextMap<V> {
    type V = Seq<(Seq<char>, V)>;

    closed spec fn view(&self) -> Seq<(Seq<char>, V)> {
        keyed(self.entries@)
    }
}

impl<V: DeepView> DeepView for TextMap<V> {
    type V = Seq<(Seq<char>, V::V)>;

    open spec fn deep_view(&self) -> Seq<(Seq<char>, V::V)> {
        mapped(self@, |value: V| value.deep_view())
    }
}

impl<V> TextMap<V> {
    #[verifier::type_invariant]
    spec fn well_formed(self) -> bool {
        ascending(keyed(self.entries@))
    }
}

impl<V: DeepView> TextMap<V> {

    /// The map without entries.
    pub fn new() -> (map: Self)
        ensures
            map@ == Seq::<(Seq<char>, V)>::empty(),
            map.deep_view() == Seq::<(Seq<char>, V::V)>::empty(),
    {
        let map = TextMap { entries: Vec::new() };
        assert(map@ =~= Seq::<(Seq<char>, V)>::empty());
        assert(map.deep_view() =~= Seq::<(Seq<char>, V::V)>::empty());
        map
    }

    proof fn lemma_deep_ascending(&self)
        requires
            ascending(self@),
        ensures
            ascending(self.deep_view()),
    {
        assert forall|i: int, j: int| 0 <= i < j < self.deep_view().len() implies text::below(
            #[trigger] self.deep_view()[i].0,
            #[trigger] self.deep_view()[j].0,
        ) by {
            assert(text::below(self@[i].0, self@[j].0));
        }
    }

    /// How many entries there are.
    pub fn len(&self) -> (len: usize)
        ensures
            len == self@.len(),
            len == self.deep_view().len(),
            ascending(self@),
            ascending(self.deep_view()),
    {
        proof {
            use_type_invariant(self);
            self.lemma_deep_ascending();
        }
        self.entries.len()
    }

    /// Whether there is no entry.
    pub fn is_empty(&self) -> (empty: bool)
        ensures
            empty == (self@.len() == 0),
            empty == (self.deep_view().len() == 0),
    {
        self.entries.len() == 0
    }

    /// The key of the entry at `index`, counted in the order of keys.
    pub fn key_at(&self, index: usize) -> (key: &str)
        requires
            index < self@.len(),
        ensures
            key@ == self@[index as int].0,
            key@ == self.deep_view()[index as int].0,
    {
        self.entries[index].0.as_str()
    }

    /// The value of the entry at `index`, counted in the order of keys.
    pub fn value_at(&self, index: usize) -> (value: &V)
        requires
            index < self@.len(),
        ensures
            *value == self@[index as int].1,
            value.deep_view() == self.deep_view()[index as int].1,
    {
        &self.entries[index].1
    }

    fn position(&self, key: &str) -> (at: usize)
        ensures
            at == rank(self@, key@),
            at <= self@.len(),
    {
        let mut at: usize = 0;
        while at < self.entries.len() && is_at_most(self.entries[at].0.as_str(), key) && !same(
            self.entries[at].0.as_str(),
            key,
        )
            invariant
                at <= self@.len(),
                forall|i: int| 0 <= i < at ==> text::below(#[trigger] self@[i].0, key@),
            decreases self@.len() - at,
        {
            at += 1;
        }
        proof {
            lemma_rank_is(self@, key@, at as int);
        }
        at
    }

    /// Whether `key` stands in the map.
    pub fn contains_key(&self, key: &str) -> (yes: bool)
        ensures
            yes == holds(self@, key@),
            yes == holds(self.deep_view(), key@),
    {
        proof {
            lemma_mapped_holds(self@, |value: V| value.deep_view(), key@);
        }
        let at: usize = self.position(key);
        at < self.entries.len() && same(self.entries[at].0.as_str(), key)
    }

    /// The value under `key`.
    pub fn get(&self, key: &str) -> (value: Option<&V>)
        ensures
            match lookup(self@, key@) {
                Some(found) => value matches Some(v) && *v == found,
                None => value is None,
            },
            value.deep_view() == lookup(self.deep_view(), key@),
    {
        proof {
            lemma_mapped_holds(self@, |value: V| value.deep_view(), key@);
        }
        let at: usize = self.position(key);
        if at < self.entries.len() && same(self.entries[at].0.as_str(), key) {
            Some(&self.entries[at].1)
        } else {
            None
        }
    }

    /// Puts `value` under `key`, in place of what was there.
    pub fn insert(&mut self, key: String, value: V)
        ensures
            final(self)@ == inserted(old(self)@, key@, value),
            final(self).deep_view() == inserted(old(self).deep_view(), key@, value.deep_view()),
    {
        proof {
            lemma_mapped_inserted(self@, |v: V| v.deep_view(), key@, value);
            use_type_invariant(&*self);
            law_insert_then_lookup(self@, key@, value, key@);
        }
        let at: usize = self.position(key.as_str());
        let present = self.contains_key(key.as_str());
        let ghost before = self.entries@;
        let mut entries: Vec<(String, V)> = Vec::new();
        std::mem::swap(&mut entries, &mut self.entries);
        if present {
            let _ = entries.remove(at);
            entries.insert(at, (key, value));
        } else {
            entries.insert(at, (key, value));
        }
        proof {
            assert(keyed(entries@) =~= inserted(keyed(before), key@, value));
        }
        self.entries = entries;
    }

    /// Puts `value` under a key that comes after every other.
    pub fn push_last(&mut self, key: String, value: V)
        requires
            old(self).deep_view().len() > 0 ==> text::below(
                old(self).deep_view().last().0,
                key@,
            ),
        ensures
            final(self)@ == old(self)@.push((key@, value)),
            final(self).deep_view() == old(self).deep_view().push((key@, value.deep_view())),
    {
        proof {
            use_type_invariant(&*self);
        }
        let ghost before = keyed(self.entries@);
        proof {
            if before.len() > 0 {
                assert(self.deep_view().last().0 == before.last().0);
            }
        }
        let mut entries: Vec<(String, V)> = Vec::new();
        std::mem::swap(&mut entries, &mut self.entries);
        entries.push((key, value));
        proof {
            let after = keyed(entries@);
            assert(after =~= before.push((key@, value)));
            assert forall|i: int, j: int| 0 <= i < j < after.len() implies text::below(
                #[trigger] after[i].0,
                #[trigger] after[j].0,
            ) by {
                if j == before.len() {
                    if i < before.len() - 1 {
                        lemma_below_transitive(before[i].0, before.last().0, key@);
                    }
                } else {
                    assert(text::below(before[i].0, before[j].0));
                }
            }
        }
        self.entries = entries;
        proof {
            assert(self.deep_view() =~= old(self).deep_view().push((key@, value.deep_view())));
        }
    }

    /// Takes `key` out, and tells whether it was there.
    pub fn remove(&mut self, key: &str) -> (found: bool)
        ensures
            found == holds(old(self)@, key@),
            final(self)@ == removed(old(self)@, key@),
            final(self).deep_view() == removed(old(self).deep_view(), key@),
            found == holds(old(self).deep_view(), key@),
    {
        proof {
            lemma_mapped_removed(self@, |v: V| v.deep_view(), key@);
            lemma_mapped_holds(self@, |v: V| v.deep_view(), key@);
            use_type_invariant(&*self);
            law_remove_then_lookup(self@, key@, key@);
        }
        if !self.contains_key(key) {
            return false;
        }
        let at: usize = self.position(key);
        let ghost before = self.entries@;
        let mut entries: Vec<(String, V)> = Vec::new();
        std::mem::swap(&mut entries, &mut self.entries);
        let _ = entries.remove(at);
        proof {
            assert(keyed(entries@) =~= removed(keyed(before), key@));
        }
        self.entries = entries;
        true
    }

    /// Drops every entry whose key is not among `keys`.
    pub fn retain_keys(&mut self, keys: &Vec<String>)
        ensures
            final(self)@ == retained(old(self)@, keys.deep_view()),
            final(self).deep_view() == retained(old(self).deep_view(), keys.deep_view()),
    {
        proof {
            lemma_mapped_retained(self@, |v: V| v.deep_view(), keys.deep_view());
            use_type_invariant(&*self);
            lemma_retained(self@, keys.deep_view());
        }
        let ghost before = keyed(self.entries@);
        let mut entries: Vec<(String, V)> = Vec::new();
        std::mem::swap(&mut entries, &mut self.entries);
        let mut i: usize = 0;
        let ghost mut seen: int = 0;
        proof {
            assert(before.skip(0) =~= before);
            assert(retained(before.take(0), keys.deep_view()) =~= Seq::<(Seq<char>, V)>::empty())
                by {
                reveal(Seq::filter);
            }
        }
        while i < entries.len()
            invariant
                0 <= seen <= before.len(),
                i <= entries@.len(),
                i == retained(before.take(seen), keys.deep_view()).len(),
                keyed(entries@) == retained(before.take(seen), keys.deep_view()) + before.skip(
                    seen,
                ),
            decreases entries@.len() - i,
        {
            let ghost kept = retained(before.take(seen), keys.deep_view());
            proof {
                reveal(Seq::filter);
                assert(keyed(entries@)[i as int] == before.skip(seen)[0]);
                assert(before.take(seen + 1).drop_last() =~= before.take(seen));
                assert(before.skip(seen) =~= seq![before[seen]] + before.skip(seen + 1));
            }
            if contains_text(keys, entries[i].0.as_str()) {
                proof {
                    assert(keyed(entries@) =~= kept.push(before[seen]) + before.skip(seen + 1));
                }
                i += 1;
            } else {
                let ghost whole = keyed(entries@);
                let _ = entries.remove(i);
                proof {
                    assert(keyed(entries@) =~= whole.remove(i as int));
                    assert(whole.remove(i as int) =~= kept + before.skip(seen + 1));
                }
            }
            proof {
                seen = seen + 1;
            }
        }
        proof {
            assert(before.skip(seen).len() == 0);
            assert(before.take(seen) =~= before);
            assert(keyed(entries@) =~= retained(before, keys.deep_view()));
        }
        self.entries = entries;
    }
}

impl<V> Default for TextMap<V> {
    fn default() -> (map: Self)
        ensures
            map@ == Seq::<(Seq<char>, V)>::empty(),
    {
        let map = TextMap { entries: Vec::new() };
        assert(map@ =~= Seq::<(Seq<char>, V)>::empty());
        map
    }
}

impl<V: Clone> Clone for TextMap<V> {
    fn clone(&self) -> (copy: Self)
        ensures
            copy@.len() == self@.len(),
            forall|i: int|
                0 <= i < self@.len() ==> #[trigger] copy@[i].0 == self@[i].0 && cloned(
                    self@[i].1,
                    copy@[i].1,
                ),
    {
        proof {
            use_type_invariant(self);
        }
        let mut entries: Vec<(String, V)> = Vec::new();
        let mut i: usize = 0;
        while i < self.entries.len()
            invariant
                i <= self.entries@.len(),
                entries@.len() == i,
                forall|k: int|
                    #![trigger entries@[k]]
                    0 <= k < i ==> entries@[k].0@ == self.entries@[k].0@ && cloned(
                        self.entries@[k].1,
                        entries@[k].1,
                    ),
            decreases self.entries@.len() - i,
        {
            let entry = &self.entries[i];
            entries.push((entry.0.clone(), entry.1.clone()));
            i += 1;
        }
        proof {
            assert forall|i: int, j: int| 0 <= i < j < entries@.len() implies text::below(
                #[trigger] keyed(entries@)[i].0,
                #[trigger] keyed(entries@)[j].0,
            ) by {
                assert(entries@[i].0@ == self.entries@[i].0@);
                assert(entries@[j].0@ == self.entries@[j].0@);
                assert(text::below(keyed(self.entries@)[i].0, keyed(self.entries@)[j].0));
            }
        }
        TextMap { entries }
    }
}

/// Whether `text` is one of `texts`.
pub fn contains_text(texts: &Vec<String>, text: &str) -> (yes: bool)
    ensures
        yes == texts.deep_view().contains(text@),
{
    let mut i: usize = 0;
    while i < texts.len()
        invariant
            i <= texts@.len(),
            forall|k: int| 0 <= k < i ==> texts.deep_view()[k] != text@,
        decreases texts@.len() - i,
    {
        if same(texts[i].as_str(), text) {
            assert(texts.deep_view()[i as int] == text@);
            return true;
        }
        i += 1;
    }
    false
}

} // verus!
